//! Spatio-temporal cluster finding over sorted hit streams.
//!
//! Two hits are neighbours when their times of arrival differ by less than
//! `max_toa_gap` ticks (strict) and their columns and rows each differ by at
//! most `max_pixel_gap` pixels (inclusive). A cluster is a flood-filled
//! connected component under that predicate, accepted only if it has enough
//! hits and enough total charge.

use std::collections::VecDeque;

use vstd::prelude::*;

use crate::{hits_sorted, Hit};
use crate::sorter::insertion_sort_hits;

verus! {

// ---------------------------------------------------------------------------
// The membership bitset, from the bit-vec crate.
// ---------------------------------------------------------------------------

#[verifier::external_type_specification]
#[verifier::external_body]
#[verifier::reject_recursive_types(B)]
pub struct ExBitVec<B>(bit_vec::BitVec<B>);

/// What a bit vector holds, bit by bit.
pub uninterp spec fn bitvec_bits(bv: bit_vec::BitVec) -> Seq<bool>;

/// Relies on bit_vec::BitVec::from_elem: `len` bits, each set to `bit`.
#[verifier::external_body]
fn bitvec_from_elem(len: usize, bit: bool) -> (r: bit_vec::BitVec)
    ensures
        bitvec_bits(r).len() == len,
        forall|i: int| 0 <= i < len ==> bitvec_bits(r)[i] == bit,
{
    bit_vec::BitVec::from_elem(len, bit)
}

/// Relies on bit_vec::BitVec's indexing: the bit at `i`; it panics only out
/// of bounds, which callers exclude.
#[verifier::external_body]
fn bitvec_get(bv: &bit_vec::BitVec, i: usize) -> (r: bool)
    requires
        i < bitvec_bits(*bv).len(),
    ensures
        r == bitvec_bits(*bv)[i as int],
{
    bv[i]
}

/// Relies on bit_vec::BitVec::set: writes the bit at `i`, leaving the rest;
/// it panics only out of bounds, which callers exclude.
#[verifier::external_body]
fn bitvec_set(bv: &mut bit_vec::BitVec, i: usize, x: bool)
    requires
        i < bitvec_bits(*old(bv)).len(),
    ensures
        bitvec_bits(*final(bv)) == bitvec_bits(*old(bv)).update(i as int, x),
{
    bv.set(i, x)
}

// ---------------------------------------------------------------------------
// The adjacency predicate.
// ---------------------------------------------------------------------------

/// Distance between two naturals as a mathematical integer.
pub open spec fn abs_diff(a: int, b: int) -> int {
    if a >= b {
        a - b
    } else {
        b - a
    }
}

/// Two hits are neighbours when they are close in time (strictly, in ticks)
/// and close on the pixel grid (inclusively, in pixels) in both directions.
pub open spec fn neighbours(a: Hit, b: Hit, max_toa_gap: u32, max_pixel_gap: u32) -> bool {
    &&& abs_diff(a.toa as int, b.toa as int) < max_toa_gap as int
    &&& abs_diff(a.col as int, b.col as int) <= max_pixel_gap as int
    &&& abs_diff(a.row as int, b.row as int) <= max_pixel_gap as int
}

/// The adjacency test.
pub fn hits_adjacent(a: &Hit, b: &Hit, max_toa_gap: u32, max_pixel_gap: u32) -> (r: bool)
    ensures
        r == neighbours(*a, *b, max_toa_gap, max_pixel_gap),
{
    let toa_diff = if a.toa >= b.toa {
        a.toa - b.toa
    } else {
        b.toa - a.toa
    };
    let col_diff = if a.col >= b.col {
        a.col - b.col
    } else {
        b.col - a.col
    };
    let row_diff = if a.row >= b.row {
        a.row - b.row
    } else {
        b.row - a.row
    };
    toa_diff < max_toa_gap as u64 && col_diff as u32 <= max_pixel_gap && row_diff as u32
        <= max_pixel_gap
}

/// Law: with a pixel gap of zero, only exact pixel coincidence connects;
/// diagonal (or any offset) neighbours are rejected.
pub proof fn lemma_zero_pixel_gap_exact(a: Hit, b: Hit, max_toa_gap: u32)
    ensures
        neighbours(a, b, max_toa_gap, 0) <==> (abs_diff(a.toa as int, b.toa as int)
            < max_toa_gap as int && a.col == b.col && a.row == b.row),
{
}

// ---------------------------------------------------------------------------
// Connectivity: paths of neighbouring members.
// ---------------------------------------------------------------------------

/// A walk through `members` in which consecutive hits are neighbours.
pub open spec fn valid_path(
    hits: Seq<Hit>,
    members: Set<int>,
    path: Seq<int>,
    tg: u32,
    pg: u32,
) -> bool {
    &&& path.len() >= 1
    &&& (forall|i: int| 0 <= i < path.len() ==> members.contains(#[trigger] path[i]))
    &&& (forall|i: int| 0 <= i < path.len() ==> 0 <= #[trigger] path[i] < hits.len())
    &&& (forall|i: int| 0 <= i < path.len() - 1 ==> neighbours(
        hits[#[trigger] path[i]],
        hits[path[i + 1]],
        tg,
        pg,
    ))
}

/// `a` reaches `b` through members only.
pub open spec fn connected_in(
    hits: Seq<Hit>,
    members: Set<int>,
    a: int,
    b: int,
    tg: u32,
    pg: u32,
) -> bool {
    exists|path: Seq<int>|
        valid_path(hits, members, path, tg, pg) && path[0] == a && path.last() == b
}

pub proof fn lemma_connected_refl(hits: Seq<Hit>, members: Set<int>, a: int, tg: u32, pg: u32)
    requires
        members.contains(a),
        0 <= a < hits.len(),
    ensures
        connected_in(hits, members, a, a, tg, pg),
{
    let path = seq![a];
    assert(valid_path(hits, members, path, tg, pg) && path[0] == a && path.last() == a);
}

pub proof fn lemma_connected_step(
    hits: Seq<Hit>,
    members: Set<int>,
    a: int,
    b: int,
    c: int,
    tg: u32,
    pg: u32,
)
    requires
        connected_in(hits, members, a, b, tg, pg),
        members.contains(c),
        0 <= c < hits.len(),
        neighbours(hits[b], hits[c], tg, pg),
    ensures
        connected_in(hits, members, a, c, tg, pg),
{
    let path = choose|path: Seq<int>|
        valid_path(hits, members, path, tg, pg) && path[0] == a && path.last() == b;
    let path2 = path.push(c);
    assert forall|i: int| 0 <= i < path2.len() - 1 implies neighbours(
        hits[#[trigger] path2[i]],
        hits[path2[i + 1]],
        tg,
        pg,
    ) by {
        if i < path.len() - 1 {
            assert(path2[i] == path[i] && path2[i + 1] == path[i + 1]);
        } else {
            assert(path2[i] == path.last() && path2[i + 1] == c);
        }
    }
    assert(valid_path(hits, members, path2, tg, pg) && path2[0] == a && path2.last() == c);
}

/// A walk stays valid when the member set grows.
pub proof fn lemma_connected_monotone(
    hits: Seq<Hit>,
    m1: Set<int>,
    m2: Set<int>,
    a: int,
    b: int,
    tg: u32,
    pg: u32,
)
    requires
        connected_in(hits, m1, a, b, tg, pg),
        m1.subset_of(m2),
    ensures
        connected_in(hits, m2, a, b, tg, pg),
{
    let path = choose|path: Seq<int>|
        valid_path(hits, m1, path, tg, pg) && path[0] == a && path.last() == b;
    assert(valid_path(hits, m2, path, tg, pg) && path[0] == a && path.last() == b);
}

/// Adjacency is symmetric, so a walk read backwards is a walk.
pub proof fn lemma_connected_sym(
    hits: Seq<Hit>,
    members: Set<int>,
    a: int,
    b: int,
    tg: u32,
    pg: u32,
)
    requires
        connected_in(hits, members, a, b, tg, pg),
    ensures
        connected_in(hits, members, b, a, tg, pg),
{
    let path = choose|path: Seq<int>|
        valid_path(hits, members, path, tg, pg) && path[0] == a && path.last() == b;
    let rev = path.reverse();
    assert forall|i: int| 0 <= i < rev.len() - 1 implies neighbours(
        hits[#[trigger] rev[i]],
        hits[rev[i + 1]],
        tg,
        pg,
    ) by {
        let n = path.len();
        assert(rev[i] == path[n - 1 - i] && rev[i + 1] == path[n - 2 - i]);
        assert(neighbours(hits[path[n - 2 - i]], hits[path[n - 1 - i]], tg, pg));
    }
    assert(valid_path(hits, members, rev, tg, pg) && rev[0] == b && rev.last() == a);
}

/// Walks concatenate.
pub proof fn lemma_connected_trans(
    hits: Seq<Hit>,
    members: Set<int>,
    a: int,
    b: int,
    c: int,
    tg: u32,
    pg: u32,
)
    requires
        connected_in(hits, members, a, b, tg, pg),
        connected_in(hits, members, b, c, tg, pg),
    ensures
        connected_in(hits, members, a, c, tg, pg),
{
    let p1 = choose|path: Seq<int>|
        valid_path(hits, members, path, tg, pg) && path[0] == a && path.last() == b;
    let p2 = choose|path: Seq<int>|
        valid_path(hits, members, path, tg, pg) && path[0] == b && path.last() == c;
    let joined = p1 + p2.drop_first();
    assert forall|i: int| 0 <= i < joined.len() - 1 implies neighbours(
        hits[#[trigger] joined[i]],
        hits[joined[i + 1]],
        tg,
        pg,
    ) by {
        let n1 = p1.len();
        if i < n1 - 1 {
            assert(joined[i] == p1[i] && joined[i + 1] == p1[i + 1]);
        } else if i == n1 - 1 {
            assert(joined[i] == p1.last());
            if p2.len() >= 2 {
                assert(joined[i + 1] == p2[1]);
                assert(neighbours(hits[p2[0]], hits[p2[1]], tg, pg));
            }
        } else {
            assert(joined[i] == p2[i - n1 + 1] && joined[i + 1] == p2[i - n1 + 2]);
        }
    }
    assert(joined[0] == a);
    if p2.len() == 1 {
        assert(joined =~= p1);
        assert(joined.last() == b);
        assert(b == c);
    } else {
        assert(joined.last() == p2.last());
    }
    assert(valid_path(hits, members, joined, tg, pg) && joined[0] == a && joined.last() == c);
}

/// Law: a member set in which every member reaches the seed is mutually
/// connected — any two members reach each other through the set.
pub proof fn lemma_members_mutually_connected(
    hits: Seq<Hit>,
    members: Set<int>,
    seed: int,
    tg: u32,
    pg: u32,
)
    requires
        forall|k: int| members.contains(k) ==> connected_in(hits, members, seed, k, tg, pg),
    ensures
        forall|a: int, b: int| members.contains(a) && members.contains(b) ==> connected_in(
            hits,
            members,
            a,
            b,
            tg,
            pg,
        ),
{
    assert forall|a: int, b: int| members.contains(a) && members.contains(b) implies connected_in(
        hits,
        members,
        a,
        b,
        tg,
        pg,
    ) by {
        lemma_connected_sym(hits, members, seed, a, tg, pg);
        lemma_connected_trans(hits, members, a, seed, b, tg, pg);
    }
}

// ---------------------------------------------------------------------------
// The flood fill.
// ---------------------------------------------------------------------------

/// Whether hit `k` lies inside the scan window opened at the seed hit.
pub open spec fn in_window(hits: Seq<Hit>, seed: int, k: int, window: Option<u64>) -> bool {
    match window {
        Some(w) => hits[k].toa <= hits[seed].toa + w,
        None => true,
    }
}

/// The set of buffer indices named by an index vector.
pub open spec fn idx_set(m: Seq<usize>) -> Set<int> {
    Set::new(|k: int| exists|t: int| 0 <= t < m.len() && m[t] == k)
}

/// The work queue and the membership bitset name the same indices: queued
/// indices are in bounds, flagged, unprocessed and pairwise distinct, and
/// every flagged index is queued.
pub open spec fn queue_stack_inv(q: Seq<usize>, s: Seq<bool>, p: Seq<bool>) -> bool {
    &&& (forall|t: int| 0 <= t < q.len() ==> (#[trigger] q[t]) < s.len())
    &&& (forall|t: int| 0 <= t < q.len() ==> s[#[trigger] q[t] as int])
    &&& (forall|t: int| 0 <= t < q.len() ==> !p[#[trigger] q[t] as int])
    &&& (forall|t1: int, t2: int| 0 <= t1 < t2 < q.len() ==> q[t1] != q[t2])
    &&& (forall|k: int| 0 <= k < s.len() && s[k] ==> idx_set(q).contains(k))
}

/// Work left for the flood fill: two units for an untouched index, one for a
/// queued one, none for a processed one.
pub open spec fn flood_weight(p: bool, s: bool) -> int {
    if p {
        0
    } else if s {
        1
    } else {
        2
    }
}

pub open spec fn flood_potential(p: Seq<bool>, s: Seq<bool>) -> int
    decreases p.len(),
{
    if p.len() == 0 {
        0
    } else {
        flood_potential(p.drop_last(), s.drop_last()) + flood_weight(p.last(), s.last())
    }
}

proof fn lemma_flood_potential_nonneg(p: Seq<bool>, s: Seq<bool>)
    requires
        p.len() == s.len(),
    ensures
        flood_potential(p, s) >= 0,
    decreases p.len(),
{
    if p.len() > 0 {
        lemma_flood_potential_nonneg(p.drop_last(), s.drop_last());
    }
}

/// Rewriting one position changes the potential by that position's weight.
proof fn lemma_flood_potential_update(p: Seq<bool>, s: Seq<bool>, i: int, pv: bool, sv: bool)
    requires
        p.len() == s.len(),
        0 <= i < p.len(),
    ensures
        flood_potential(p.update(i, pv), s.update(i, sv)) == flood_potential(p, s)
            - flood_weight(p[i], s[i]) + flood_weight(pv, sv),
    decreases p.len(),
{
    let n = p.len() as int;
    if i == n - 1 {
        assert(p.update(i, pv).drop_last() =~= p.drop_last());
        assert(s.update(i, sv).drop_last() =~= s.drop_last());
        assert(p.update(i, pv).last() == pv);
        assert(s.update(i, sv).last() == sv);
    } else {
        assert(p.update(i, pv).drop_last() =~= p.drop_last().update(i, pv));
        assert(s.update(i, sv).drop_last() =~= s.drop_last().update(i, sv));
        assert(p.update(i, pv).last() == p.last());
        assert(s.update(i, sv).last() == s.last());
        lemma_flood_potential_update(p.drop_last(), s.drop_last(), i, pv, sv);
    }
}

/// One member's neighbour scan: enqueues every unprocessed, unqueued hit in
/// the window that neighbours hit `j`, and guarantees that whatever it left
/// unqueued in the window is no neighbour of `j`.
fn scan_neighbours(
    hits: &Vec<Hit>,
    processed: &Vec<bool>,
    in_stack: &mut bit_vec::BitVec,
    queue: &mut VecDeque<usize>,
    j: usize,
    seed: usize,
    window: Option<u64>,
    max_toa_gap: u32,
    max_pixel_gap: u32,
)
    requires
        processed@.len() == hits@.len(),
        bitvec_bits(*old(in_stack)).len() == hits@.len(),
        j < hits@.len(),
        seed < hits@.len(),
        window is Some ==> hits_sorted(hits@),
        forall|k: int| 0 <= k < seed ==> processed@[k],
        queue_stack_inv(old(queue)@, bitvec_bits(*old(in_stack)), processed@),
    ensures
        ({
            let s0 = bitvec_bits(*old(in_stack));
            let s1 = bitvec_bits(*final(in_stack));
            &&& s1.len() == hits@.len()
            &&& queue_stack_inv(final(queue)@, s1, processed@)
            &&& (forall|t: int| 0 <= t < old(queue)@.len() ==> final(queue)@[t] == old(
                queue,
            )@[t])
            &&& final(queue)@.len() >= old(queue)@.len()
            &&& (forall|k: int| 0 <= k < s0.len() && s0[k] ==> s1[k])
            &&& (forall|k: int| 0 <= k < s1.len() && s1[k] && !s0[k] ==> (!processed@[k]
                && in_window(hits@, seed as int, k, window) && neighbours(
                hits@[j as int],
                hits@[k],
                max_toa_gap,
                max_pixel_gap,
            )))
            &&& (forall|k: int| 0 <= k < hits@.len() && !processed@[k] && !s1[k] && in_window(
                hits@,
                seed as int,
                k,
                window,
            ) ==> !neighbours(hits@[j as int], hits@[k], max_toa_gap, max_pixel_gap))
            &&& flood_potential(processed@, s1) <= flood_potential(processed@, s0)
        }),
{
    let n = hits.len();
    let start_toa = hits[seed].toa;
    let ghost s0 = bitvec_bits(*in_stack);
    let mut k: usize = 0;
    let mut broke = false;
    let ghost mut break_at: int = n as int;
    while k < n && !broke
        invariant
            n == hits@.len(),
            processed@.len() == n,
            seed < n,
            j < n,
            start_toa == hits@[seed as int].toa,
            window is Some ==> hits_sorted(hits@),
            forall|kk: int| 0 <= kk < seed ==> processed@[kk],
            0 <= k <= n,
            s0.len() == n,
            bitvec_bits(*in_stack).len() == n,
            queue_stack_inv(queue@, bitvec_bits(*in_stack), processed@),
            forall|t: int| 0 <= t < old(queue)@.len() ==> queue@[t] == old(queue)@[t],
            queue@.len() >= old(queue)@.len(),
            forall|kk: int| 0 <= kk < s0.len() && s0[kk] ==> bitvec_bits(*in_stack)[kk],
            forall|kk: int| 0 <= kk < n && bitvec_bits(*in_stack)[kk] && !s0[kk] ==> (
            !processed@[kk] && in_window(hits@, seed as int, kk, window) && neighbours(
                hits@[j as int],
                hits@[kk],
                max_toa_gap,
                max_pixel_gap,
            )),
            forall|kk: int| 0 <= kk < k && !processed@[kk] && !bitvec_bits(*in_stack)[kk]
                && in_window(hits@, seed as int, kk, window) ==> !neighbours(
                hits@[j as int],
                hits@[kk],
                max_toa_gap,
                max_pixel_gap,
            ),
            flood_potential(processed@, bitvec_bits(*in_stack)) <= flood_potential(
                processed@,
                s0,
            ),
            broke ==> (window is Some && k < n && hits@[k as int].toa > hits@[seed as int].toa
                + window->0),
            !broke ==> break_at == n,
            broke ==> break_at == k,
        decreases n - k, (if broke { 0int } else { 1int }),
    {
        let is_processed = processed[k];
        let is_queued = bitvec_get(&*in_stack, k);
        if !is_processed && !is_queued {
            let mut out_of_window = false;
            if let Some(w) = window {
                if hits[k].toa - start_toa > w {
                    out_of_window = true;
                }
            }
            if out_of_window {
                proof {
                    break_at = k as int;
                }
                broke = true;
            } else {
                proof {
                    if window is Some {
                        assert(hits@[seed as int].toa <= hits@[k as int].toa);
                    }
                }
                if hits_adjacent(&hits[j], &hits[k], max_toa_gap, max_pixel_gap) {
                    let ghost s_pre = bitvec_bits(*in_stack);
                    let ghost q_pre = queue@;
                    queue.push_back(k);
                    bitvec_set(in_stack, k, true);
                    proof {
                        lemma_flood_potential_update(processed@, s_pre, k as int, false, true);
                        assert(processed@.update(k as int, false) =~= processed@);
                        assert(bitvec_bits(*in_stack) == s_pre.update(k as int, true));
                        assert forall|kk: int| 0 <= kk < s0.len() && s0[kk] implies bitvec_bits(
                            *in_stack,
                        )[kk] by {
                            assert(s_pre[kk]);
                            assert(s_pre.update(k as int, true)[kk]);
                        }
                        assert forall|kk: int|
                            0 <= kk < n && bitvec_bits(*in_stack)[kk] implies idx_set(
                            queue@,
                        ).contains(kk) by {
                            if kk == k {
                                assert(queue@[queue@.len() - 1] == k);
                            } else {
                                assert(s_pre[kk]);
                                let t = choose|t: int|
                                    0 <= t < q_pre.len() && q_pre[t] == kk;
                                assert(queue@[t] == kk);
                            }
                        }
                    }
                }
                k = k + 1;
            }
        } else {
            k = k + 1;
        }
    }
    proof {
        let s1 = bitvec_bits(*in_stack);
        assert forall|kk: int|
            0 <= kk < hits@.len() && !processed@[kk] && !s1[kk] && in_window(
                hits@,
                seed as int,
                kk,
                window,
            ) implies !neighbours(hits@[j as int], hits@[kk], max_toa_gap, max_pixel_gap) by {
            if kk >= break_at {
                assert(window is Some);
                assert(hits@[break_at].toa > hits@[seed as int].toa + window->0);
                assert(hits@[break_at].toa <= hits@[kk].toa);
                assert(!in_window(hits@, seed as int, kk, window));
            }
        }
    }
}

/// Flood fill from `seed`: collects, marks processed and returns (in
/// discovery order) the connected component of the seed hit among the not
/// yet processed hits, confined to the scan window. Every collected index
/// reaches the seed through collected indices only, and no hit left
/// unprocessed inside the window neighbours any collected hit.
pub fn flood_fill(
    hits: &Vec<Hit>,
    processed: &mut Vec<bool>,
    seed: usize,
    window: Option<u64>,
    max_toa_gap: u32,
    max_pixel_gap: u32,
) -> (members: Vec<usize>)
    requires
        old(processed)@.len() == hits@.len(),
        seed < hits@.len(),
        !old(processed)@[seed as int],
        forall|k: int| 0 <= k < seed ==> old(processed)@[k],
        window is Some ==> hits_sorted(hits@),
    ensures
        final(processed)@.len() == hits@.len(),
        forall|k: int| 0 <= k < hits@.len() ==> (final(processed)@[k] <==> (old(processed)@[k]
            || idx_set(members@).contains(k))),
        idx_set(members@).contains(seed as int),
        members@.len() >= 1,
        members@[0] == seed,
        forall|t: int| 0 <= t < members@.len() ==> (#[trigger] members@[t]) < hits@.len(),
        forall|t: int| 0 <= t < members@.len() ==> !old(processed)@[#[trigger] members@[t] as int],
        forall|t1: int, t2: int| 0 <= t1 < t2 < members@.len() ==> members@[t1] != members@[t2],
        forall|t: int| 0 <= t < members@.len() ==> in_window(
            hits@,
            seed as int,
            #[trigger] members@[t] as int,
            window,
        ),
        forall|k: int| idx_set(members@).contains(k) ==> connected_in(
            hits@,
            idx_set(members@),
            seed as int,
            k,
            max_toa_gap,
            max_pixel_gap,
        ),
        forall|x: int, k: int| idx_set(members@).contains(x) && 0 <= k < hits@.len()
            && !final(processed)@[k] && in_window(hits@, seed as int, k, window) ==> !neighbours(
            hits@[x],
            hits@[k],
            max_toa_gap,
            max_pixel_gap,
        ),
{
    let n = hits.len();
    let mut members: Vec<usize> = Vec::new();
    let mut queue: VecDeque<usize> = VecDeque::new();
    let mut in_stack = bitvec_from_elem(n, false);
    queue.push_back(seed);
    bitvec_set(&mut in_stack, seed, true);
    proof {
        assert(queue@[0] == seed);
        assert(idx_set(queue@).contains(seed as int));
        let r0 = idx_set(members@).union(idx_set(queue@));
        assert(r0.contains(seed as int));
        lemma_connected_refl(hits@, r0, seed as int, max_toa_gap, max_pixel_gap);
        assert forall|k: int| r0.contains(k) implies connected_in(
            hits@,
            r0,
            seed as int,
            k,
            max_toa_gap,
            max_pixel_gap,
        ) by {
            assert(k == seed);
        }
    }
    while queue.len() > 0
        invariant
            n == hits@.len(),
            processed@.len() == n,
            seed < n,
            window is Some ==> hits_sorted(hits@),
            forall|k: int| 0 <= k < seed ==> processed@[k],
            bitvec_bits(in_stack).len() == n,
            queue_stack_inv(queue@, bitvec_bits(in_stack), processed@),
            members@.len() == 0 ==> queue@ =~= seq![seed],
            members@.len() > 0 ==> members@[0] == seed,
            idx_set(members@).union(idx_set(queue@)).contains(seed as int),
            forall|k: int| 0 <= k < n ==> (processed@[k] <==> (old(processed)@[k] || idx_set(
                members@,
            ).contains(k))),
            forall|t: int| 0 <= t < members@.len() ==> (#[trigger] members@[t]) < n,
            forall|t: int| 0 <= t < members@.len() ==> !old(processed)@[#[trigger] members@[t]
                as int],
            forall|t1: int, t2: int| 0 <= t1 < t2 < members@.len() ==> members@[t1]
                != members@[t2],
            forall|t: int| 0 <= t < members@.len() ==> in_window(
                hits@,
                seed as int,
                #[trigger] members@[t] as int,
                window,
            ),
            forall|t: int| 0 <= t < queue@.len() ==> in_window(
                hits@,
                seed as int,
                #[trigger] queue@[t] as int,
                window,
            ),
            forall|k: int|
                idx_set(members@).union(idx_set(queue@)).contains(k) ==> connected_in(
                    hits@,
                    idx_set(members@).union(idx_set(queue@)),
                    seed as int,
                    k,
                    max_toa_gap,
                    max_pixel_gap,
                ),
            forall|x: int, k: int| idx_set(members@).contains(x) && 0 <= k < n && !processed@[k]
                && !bitvec_bits(in_stack)[k] && in_window(hits@, seed as int, k, window)
                ==> !neighbours(hits@[x], hits@[k], max_toa_gap, max_pixel_gap),
        decreases flood_potential(processed@, bitvec_bits(in_stack)),
    {
        let ghost p_pre = processed@;
        let ghost s_pre = bitvec_bits(in_stack);
        let ghost q_pre = queue@;
        let ghost m_pre = members@;
        let ghost r_pre = idx_set(m_pre).union(idx_set(q_pre));

        let j = queue.pop_front().unwrap();
        proof {
            assert(q_pre[0] == j);
            assert(!p_pre[j as int] && s_pre[j as int]);
        }
        bitvec_set(&mut in_stack, j, false);
        processed.set(j, true);
        members.push(j);

        let ghost p_mid = processed@;
        let ghost s_mid = bitvec_bits(in_stack);
        let ghost q_mid = queue@;
        let ghost m_mid = members@;
        let ghost r_mid = idx_set(m_mid).union(idx_set(q_mid));
        proof {
            // the reach set is unchanged: j moved from the queue to the members
            assert(r_mid =~= r_pre) by {
                assert forall|k: int| r_pre.contains(k) implies r_mid.contains(k) by {
                    if idx_set(m_pre).contains(k) {
                        let t = choose|t: int| 0 <= t < m_pre.len() && m_pre[t] == k;
                        assert(m_mid[t] == k);
                    } else {
                        let t = choose|t: int| 0 <= t < q_pre.len() && q_pre[t] == k;
                        if t == 0 {
                            assert(m_mid[m_mid.len() - 1] == k);
                        } else {
                            assert(q_mid[t - 1] == k);
                        }
                    }
                }
                assert forall|k: int| r_mid.contains(k) implies r_pre.contains(k) by {
                    if idx_set(m_mid).contains(k) {
                        let t = choose|t: int| 0 <= t < m_mid.len() && m_mid[t] == k;
                        if t < m_pre.len() {
                            assert(m_pre[t] == k);
                        } else {
                            assert(k == j);
                            assert(q_pre[0] == k);
                        }
                    } else {
                        let t = choose|t: int| 0 <= t < q_mid.len() && q_mid[t] == k;
                        assert(q_pre[t + 1] == k);
                    }
                }
            }
            // membership bookkeeping after the pop
            assert forall|k: int|
                0 <= k < n && s_mid[k] implies idx_set(q_mid).contains(k) by {
                assert(s_pre[k] && k != j);
                let t = choose|t: int| 0 <= t < q_pre.len() && q_pre[t] == k;
                assert(t >= 1);
                assert(q_mid[t - 1] == k);
            }
            assert(queue_stack_inv(q_mid, s_mid, p_mid));
            assert forall|k: int|
                0 <= k < n implies (p_mid[k] <==> (old(processed)@[k] || idx_set(
                m_mid,
            ).contains(k))) by {
                if k == j {
                    assert(m_mid[m_mid.len() - 1] == j);
                } else {
                    if idx_set(m_mid).contains(k) {
                        let t = choose|t: int| 0 <= t < m_mid.len() && m_mid[t] == k;
                        assert(t < m_pre.len());
                        assert(m_pre[t] == k);
                    }
                    if idx_set(m_pre).contains(k) {
                        let t = choose|t: int| 0 <= t < m_pre.len() && m_pre[t] == k;
                        assert(m_mid[t] == k);
                    }
                }
            }
            // j is a fresh member
            assert(forall|t: int| 0 <= t < m_pre.len() ==> m_pre[t] != j);
            assert(forall|t: int| 0 <= t < m_mid.len() ==> m_mid[t] < n);
            // connectivity carries over to the unchanged reach set
            assert(forall|k: int| r_mid.contains(k) ==> connected_in(
                hits@,
                r_mid,
                seed as int,
                k,
                max_toa_gap,
                max_pixel_gap,
            ));
            // the potential drops by one
            lemma_flood_potential_update(p_pre, s_pre, j as int, true, false);
            assert(p_mid =~= p_pre.update(j as int, true));
            assert(s_mid =~= s_pre.update(j as int, false));
            assert(flood_potential(p_mid, s_mid) == flood_potential(p_pre, s_pre) - 1);
        }

        scan_neighbours(
            hits,
            processed,
            &mut in_stack,
            &mut queue,
            j,
            seed,
            window,
            max_toa_gap,
            max_pixel_gap,
        );

        proof {
            let p_post = processed@;
            let s_post = bitvec_bits(in_stack);
            let q_post = queue@;
            let m_post = members@;
            let r_post = idx_set(m_post).union(idx_set(q_post));
            assert(p_post == p_mid && m_post == m_mid);
            // the reach set only grows
            assert(r_mid.subset_of(r_post)) by {
                assert forall|k: int| r_mid.contains(k) implies r_post.contains(k) by {
                    if idx_set(q_mid).contains(k) {
                        let t = choose|t: int| 0 <= t < q_mid.len() && q_mid[t] == k;
                        assert(q_post[t] == k);
                    }
                }
            }
            // every fresh queue entry neighbours j and is unprocessed, in window
            assert forall|t: int|
                q_mid.len() <= t < q_post.len() implies (!p_post[#[trigger] q_post[t] as int]
                && in_window(hits@, seed as int, q_post[t] as int, window) && neighbours(
                hits@[j as int],
                hits@[q_post[t] as int],
                max_toa_gap,
                max_pixel_gap,
            )) by {
                let k = q_post[t] as int;
                assert(s_post[k]);
                if s_mid[k] {
                    let t0 = choose|t0: int| 0 <= t0 < q_mid.len() && q_mid[t0] == q_post[t];
                    assert(q_post[t0] == q_post[t]);
                    assert(false);
                }
            }
            // queue entries stay in the window
            assert forall|t: int| 0 <= t < q_post.len() implies in_window(
                hits@,
                seed as int,
                #[trigger] q_post[t] as int,
                window,
            ) by {
                if t < q_mid.len() {
                    assert(q_post[t] == q_mid[t]);
                }
            }
            // connectivity of the grown reach set
            assert(idx_set(m_post).contains(j as int)) by {
                assert(m_post[m_post.len() - 1] == j);
            }
            assert forall|k: int| r_post.contains(k) implies connected_in(
                hits@,
                r_post,
                seed as int,
                k,
                max_toa_gap,
                max_pixel_gap,
            ) by {
                if r_mid.contains(k) {
                    lemma_connected_monotone(
                        hits@,
                        r_mid,
                        r_post,
                        seed as int,
                        k,
                        max_toa_gap,
                        max_pixel_gap,
                    );
                } else {
                    assert(idx_set(q_post).contains(k));
                    let t = choose|t: int| 0 <= t < q_post.len() && q_post[t] == k;
                    assert(t >= q_mid.len());
                    assert(neighbours(
                        hits@[j as int],
                        hits@[k],
                        max_toa_gap,
                        max_pixel_gap,
                    ));
                    assert(r_mid.contains(j as int)) by {
                        assert(m_mid[m_mid.len() - 1] == j);
                        assert(idx_set(m_mid).contains(j as int));
                    }
                    assert(connected_in(
                        hits@,
                        r_mid,
                        seed as int,
                        j as int,
                        max_toa_gap,
                        max_pixel_gap,
                    ));
                    lemma_connected_monotone(
                        hits@,
                        r_mid,
                        r_post,
                        seed as int,
                        j as int,
                        max_toa_gap,
                        max_pixel_gap,
                    );
                    lemma_connected_step(
                        hits@,
                        r_post,
                        seed as int,
                        j as int,
                        k,
                        max_toa_gap,
                        max_pixel_gap,
                    );
                }
            }
            // maximality for every member, the fresh one included
            assert forall|x: int, k: int|
                idx_set(m_post).contains(x) && 0 <= k < n && !p_post[k] && !s_post[k]
                    && in_window(hits@, seed as int, k, window) implies !neighbours(
                hits@[x],
                hits@[k],
                max_toa_gap,
                max_pixel_gap,
            ) by {
                let t = choose|t: int| 0 <= t < m_post.len() && m_post[t] == x;
                if t < m_pre.len() {
                    assert(m_pre[t] == x);
                    assert(idx_set(m_pre).contains(x));
                    assert(!s_pre[k]) by {
                        if s_pre[k] {
                            assert(k != j);
                            assert(s_mid[k]);
                            assert(s_post[k]);
                        }
                    }
                    assert(!p_pre[k]);
                } else {
                    assert(x == j);
                }
            }
            // the seed is still reached
            assert(r_post.contains(seed as int)) by {
                assert(r_mid.contains(seed as int));
            }
            lemma_flood_potential_nonneg(p_post, s_post);
        }
    }
    proof {
        let m_fin = members@;
        let s_fin = bitvec_bits(in_stack);
        assert(forall|k: int| 0 <= k < n ==> !s_fin[k]);
        assert(idx_set(queue@) =~= Set::<int>::empty());
        assert(idx_set(m_fin).union(idx_set(queue@)) =~= idx_set(m_fin));
        assert(idx_set(m_fin).contains(seed as int));
        assert forall|k: int| idx_set(m_fin).contains(k) implies connected_in(
            hits@,
            idx_set(m_fin),
            seed as int,
            k,
            max_toa_gap,
            max_pixel_gap,
        ) by {
            assert(idx_set(m_fin).union(idx_set(queue@)) =~= idx_set(m_fin));
        }
    }
    members
}

// ---------------------------------------------------------------------------
// Cluster gates.
// ---------------------------------------------------------------------------

/// The summed time over threshold of a cluster, in nanoseconds.
pub open spec fn sum_tot(s: Seq<Hit>) -> int
    decreases s.len(),
{
    if s.len() == 0 {
        0
    } else {
        s[0].tot + sum_tot(s.drop_first())
    }
}

pub proof fn lemma_sum_tot_push(s: Seq<Hit>, h: Hit)
    ensures
        sum_tot(s.push(h)) == sum_tot(s) + h.tot,
    decreases s.len(),
{
    reveal_with_fuel(sum_tot, 3);
    if s.len() == 0 {
        assert(s.push(h).drop_first() =~= Seq::<Hit>::empty());
    } else {
        assert(s.push(h).drop_first() =~= s.drop_first().push(h));
        lemma_sum_tot_push(s.drop_first(), h);
    }
}

pub proof fn lemma_sum_tot_nonneg(s: Seq<Hit>)
    ensures
        sum_tot(s) >= 0,
    decreases s.len(),
{
    if s.len() > 0 {
        lemma_sum_tot_nonneg(s.drop_first());
    }
}

/// Sums a cluster's times over threshold, saturating at the top of `u64` —
/// far beyond any physical cluster, and above every acceptance threshold.
pub fn cluster_sum_tot(c: &Vec<Hit>) -> (r: u64)
    ensures
        sum_tot(c@) <= u64::MAX ==> r == sum_tot(c@),
        sum_tot(c@) > u64::MAX ==> r == u64::MAX,
        r <= sum_tot(c@),
{
    let n = c.len();
    let mut acc: u64 = 0;
    for i in 0..n
        invariant
            n == c@.len(),
            sum_tot(c@.take(i as int)) <= u64::MAX ==> acc == sum_tot(c@.take(i as int)),
            sum_tot(c@.take(i as int)) > u64::MAX ==> acc == u64::MAX,
            acc <= sum_tot(c@.take(i as int)),
    {
        proof {
            assert(c@.take(i + 1) =~= c@.take(i as int).push(c@[i as int]));
            lemma_sum_tot_push(c@.take(i as int), c@[i as int]);
        }
        acc = acc.saturating_add(c[i] .tot as u64);
    }
    proof {
        assert(c@.take(n as int) =~= c@);
    }
    acc
}

/// Every element of a permutation comes from the sequence it permutes.
proof fn lemma_permutation_elements(a: Seq<Hit>, b: Seq<Hit>)
    requires
        a.to_multiset() == b.to_multiset(),
    ensures
        forall|i: int| 0 <= i < b.len() ==> a.contains(#[trigger] b[i]),
{
    broadcast use vstd::seq_lib::group_to_multiset_ensures;

    assert forall|i: int| 0 <= i < b.len() implies a.contains(#[trigger] b[i]) by {
        assert(b.to_multiset().count(b[i]) > 0);
    }
}

/// How many buffered hits still await clustering.
pub open spec fn count_unprocessed(p: Seq<bool>) -> int
    decreases p.len(),
{
    if p.len() == 0 {
        0
    } else {
        (if p[0] {
            0int
        } else {
            1int
        }) + count_unprocessed(p.drop_first())
    }
}

proof fn lemma_count_unprocessed_mono(p: Seq<bool>, q: Seq<bool>)
    requires
        p.len() == q.len(),
        forall|k: int| 0 <= k < p.len() && p[k] ==> q[k],
    ensures
        count_unprocessed(q) <= count_unprocessed(p),
    decreases p.len(),
{
    if p.len() > 0 {
        assert(forall|k: int| 0 <= k < p.drop_first().len() && p.drop_first()[k]
            ==> q.drop_first()[k]);
        lemma_count_unprocessed_mono(p.drop_first(), q.drop_first());
    }
}

proof fn lemma_count_unprocessed_strict(p: Seq<bool>, q: Seq<bool>, i: int)
    requires
        p.len() == q.len(),
        forall|k: int| 0 <= k < p.len() && p[k] ==> q[k],
        0 <= i < p.len(),
        !p[i],
        q[i],
    ensures
        count_unprocessed(q) < count_unprocessed(p),
    decreases p.len(),
{
    assert(forall|k: int| 0 <= k < p.drop_first().len() && p.drop_first()[k]
        ==> q.drop_first()[k]);
    if i == 0 {
        lemma_count_unprocessed_mono(p.drop_first(), q.drop_first());
    } else {
        lemma_count_unprocessed_strict(p.drop_first(), q.drop_first(), i - 1);
    }
}

proof fn lemma_count_unprocessed_nonneg(p: Seq<bool>)
    ensures
        count_unprocessed(p) >= 0,
    decreases p.len(),
{
    if p.len() > 0 {
        lemma_count_unprocessed_nonneg(p.drop_first());
    }
}

// ---------------------------------------------------------------------------
// The free-running cluster finder.
// ---------------------------------------------------------------------------

/// Finds clusters over a sliding, time-sorted buffer of hits. The caller
/// feeds decoded hits in time order; `next` flood-fills from the oldest hit
/// not yet examined and returns the next cluster that passes the size and
/// charge gates. Hits of rejected clusters stay marked as examined, so a
/// rejected seed can take neighbours away from a later cluster; this is
/// deliberate, so that no hit is examined twice.
pub struct FindClusterIterator {
    hits_buffer: Vec<Hit>,
    hits_processed: Vec<bool>,
    min_cluster_hits: u32,
    min_sum_tot: u32,
    min_hit_tot: u32,
    max_pixel_gap: u32,
    max_toa_gap: u32,
    toa_window: u32,
    n_clusters: usize,
    total_hits_processed: usize,
}

impl FindClusterIterator {
    /// The buffered hits, oldest first.
    pub closed spec fn buffer_view(self) -> Seq<Hit> {
        self.hits_buffer@
    }

    /// Which buffered hits have been examined already.
    pub closed spec fn processed_view(self) -> Seq<bool> {
        self.hits_processed@
    }

    /// Hits with no more charge than this never enter the buffer.
    pub closed spec fn spec_min_hit_tot(self) -> u32 {
        self.min_hit_tot
    }

    /// A cluster needs at least this many hits.
    pub closed spec fn spec_min_cluster_hits(self) -> u32 {
        self.min_cluster_hits
    }

    /// A cluster needs at least this much summed charge.
    pub closed spec fn spec_min_sum_tot(self) -> u32 {
        self.min_sum_tot
    }

    /// Pixel-grid half of the adjacency predicate.
    pub closed spec fn spec_max_pixel_gap(self) -> u32 {
        self.max_pixel_gap
    }

    /// Time half of the adjacency predicate, in ticks.
    pub closed spec fn spec_max_toa_gap(self) -> u32 {
        self.max_toa_gap
    }

    /// How far past a seed's time of arrival a component may reach.
    pub closed spec fn spec_toa_window(self) -> u32 {
        self.toa_window
    }

    /// One examined flag per buffered hit, and the buffer is time-sorted.
    pub closed spec fn wf(self) -> bool {
        &&& self.hits_processed@.len() == self.hits_buffer@.len()
        &&& hits_sorted(self.hits_buffer@)
    }

    /// An empty finder with the given gates and scan limits.
    pub fn new(
        min_cluster_hits: u32,
        min_sum_tot: u32,
        min_hit_tot: u32,
        max_pixel_gap: u32,
        max_toa_gap: u32,
        toa_window: u32,
    ) -> (r: FindClusterIterator)
        ensures
            r.wf(),
            r.buffer_view() =~= Seq::<Hit>::empty(),
            r.spec_min_hit_tot() == min_hit_tot,
            r.spec_min_cluster_hits() == min_cluster_hits,
            r.spec_min_sum_tot() == min_sum_tot,
            r.spec_max_pixel_gap() == max_pixel_gap,
            r.spec_max_toa_gap() == max_toa_gap,
            r.spec_toa_window() == toa_window,
    {
        FindClusterIterator {
            hits_buffer: Vec::new(),
            hits_processed: Vec::new(),
            min_cluster_hits,
            min_sum_tot,
            min_hit_tot,
            max_pixel_gap,
            max_toa_gap,
            toa_window,
            n_clusters: 0,
            total_hits_processed: 0,
        }
    }

    /// Offers one decoded hit to the buffer. A hit whose charge does not
    /// exceed the per-hit floor is never buffered; any other hit joins the
    /// back of the buffer, which the time-sorted input keeps sorted.
    pub fn feed(&mut self, h: Hit)
        requires
            old(self).wf(),
            old(self).buffer_view().len() > 0 ==> h.toa >= old(self).buffer_view().last().toa,
        ensures
            final(self).wf(),
            h.tot <= old(self).spec_min_hit_tot() ==> *final(self) == *old(self),
            h.tot > old(self).spec_min_hit_tot() ==> (final(self).buffer_view() =~= old(
                self,
            ).buffer_view().push(h) && final(self).processed_view() =~= old(
                self,
            ).processed_view().push(false)),
            final(self).spec_min_hit_tot() == old(self).spec_min_hit_tot(),
            final(self).spec_min_cluster_hits() == old(self).spec_min_cluster_hits(),
            final(self).spec_min_sum_tot() == old(self).spec_min_sum_tot(),
            final(self).spec_max_pixel_gap() == old(self).spec_max_pixel_gap(),
            final(self).spec_max_toa_gap() == old(self).spec_max_toa_gap(),
            final(self).spec_toa_window() == old(self).spec_toa_window(),
    {
        if h.tot > self.min_hit_tot {
            self.hits_buffer.push(h);
            self.hits_processed.push(false);
        }
    }

    /// Returns the next cluster that passes both gates: at least
    /// `min_cluster_hits` hits and a summed charge of at least
    /// `min_sum_tot`, time-sorted, built from buffered hits. `None` means
    /// every buffered hit has been examined; feeding more hits may allow
    /// further clusters.
    /// Returns the next cluster that passes both gates. The call first
    /// retires the examined front of the buffer, then examines flood
    /// components in seed order: `Some(c)` means every component before the
    /// last failed a gate and `c` is the last one, which passes both, is
    /// time-sorted and is built from buffered hits; `None` means every
    /// remaining component failed, and every buffered hit has been
    /// examined. Feeding more hits may allow further clusters.
    pub fn next(&mut self) -> (r: Option<Vec<Hit>>)
        requires
            old(self).wf(),
        ensures
            final(self).wf(),
            final(self).spec_min_hit_tot() == old(self).spec_min_hit_tot(),
            final(self).spec_min_cluster_hits() == old(self).spec_min_cluster_hits(),
            final(self).spec_min_sum_tot() == old(self).spec_min_sum_tot(),
            final(self).spec_max_pixel_gap() == old(self).spec_max_pixel_gap(),
            final(self).spec_max_toa_gap() == old(self).spec_max_toa_gap(),
            final(self).spec_toa_window() == old(self).spec_toa_window(),
            r matches Some(c) ==> (c@.len() >= old(self).spec_min_cluster_hits() && sum_tot(c@)
                >= old(self).spec_min_sum_tot() && hits_sorted(c@) && (forall|i: int|
                0 <= i < c@.len() ==> old(self).buffer_view().contains(#[trigger] c@[i]))),
            r is None ==> forall|k: int|
                0 <= k < final(self).processed_view().len() ==> final(self).processed_view()[k],
            exists|d: int, comps: Seq<Seq<usize>>|
                #![trigger old(self).buffer_view().skip(d), accepted_values(final(self).buffer_view(), comps, old(self).spec_min_cluster_hits() as int, old(self).spec_min_sum_tot() as int)]
                {
                    let buf = final(self).buffer_view();
                    let before = old(self).processed_view().skip(d);
                    let acc = accepted_values(
                        buf,
                        comps,
                        old(self).spec_min_cluster_hits() as int,
                        old(self).spec_min_sum_tot() as int,
                    );
                    &&& 0 <= d <= old(self).buffer_view().len()
                    &&& buf == old(self).buffer_view().skip(d)
                    &&& (forall|k: int| 0 <= k < d ==> old(self).processed_view()[k])
                    &&& (forall|j: int| 0 <= j < comps.len() ==> #[trigger] examined_component(
                        buf,
                        before,
                        comps,
                        j,
                        Some(old(self).spec_toa_window() as u64),
                        old(self).spec_max_toa_gap(),
                        old(self).spec_max_pixel_gap(),
                    ))
                    &&& (forall|k: int| 0 <= k < buf.len() ==> (final(self).processed_view()[k]
                        <==> examined_before(before, comps, comps.len() as int, k)))
                    &&& (match r {
                        Some(c) => acc.len() == 1 && c@.to_multiset() == acc[0].to_multiset(),
                        None => acc.len() == 0,
                    })
                },
    {
        let ghost buf0 = self.hits_buffer@;
        let ghost p0 = self.hits_processed@;
        let ghost mut d: int = 0;
        // retire the examined front of the buffer
        while self.hits_buffer.len() > 0 && self.hits_processed[0]
            invariant
                self.wf(),
                buf0 == old(self).buffer_view(),
                p0 == old(self).processed_view(),
                p0.len() == buf0.len(),
                0 <= d <= buf0.len(),
                self.hits_buffer@ == buf0.skip(d),
                self.hits_processed@ == p0.skip(d),
                forall|k: int| 0 <= k < d ==> p0[k],
                self.min_hit_tot == old(self).spec_min_hit_tot(),
                self.min_cluster_hits == old(self).spec_min_cluster_hits(),
                self.min_sum_tot == old(self).spec_min_sum_tot(),
                self.max_pixel_gap == old(self).spec_max_pixel_gap(),
                self.max_toa_gap == old(self).spec_max_toa_gap(),
                self.toa_window == old(self).spec_toa_window(),
            decreases self.hits_buffer@.len(),
        {
            let ghost b_pre = self.hits_buffer@;
            let ghost q_pre = self.hits_processed@;
            self.hits_buffer.remove(0);
            self.hits_processed.remove(0);
            proof {
                assert(self.hits_buffer@ =~= b_pre.drop_first());
                assert(self.hits_processed@ =~= q_pre.drop_first());
                assert(buf0.skip(d).drop_first() =~= buf0.skip(d + 1));
                assert(p0.skip(d).drop_first() =~= p0.skip(d + 1));
                assert(p0.skip(d)[0] == p0[d]);
                d = d + 1;
            }
        }
        let ghost dd = d;
        let ghost buf = self.hits_buffer@;
        let ghost before = self.hits_processed@;
        let ghost mut comps: Seq<Seq<usize>> = Seq::empty();
        let mut seed: usize = 0;
        proof {
            assert(accepted_values(
                buf,
                comps,
                self.min_cluster_hits as int,
                self.min_sum_tot as int,
            ) =~= Seq::<Seq<Hit>>::empty());
        }
        loop
            invariant
                self.wf(),
                buf0 == old(self).buffer_view(),
                p0 == old(self).processed_view(),
                p0.len() == buf0.len(),
                0 <= dd <= buf0.len(),
                buf == buf0.skip(dd),
                before == p0.skip(dd),
                forall|k: int| 0 <= k < dd ==> p0[k],
                self.hits_buffer@ == buf,
                self.hits_processed@.len() == buf.len(),
                self.min_hit_tot == old(self).spec_min_hit_tot(),
                self.min_cluster_hits == old(self).spec_min_cluster_hits(),
                self.min_sum_tot == old(self).spec_min_sum_tot(),
                self.max_pixel_gap == old(self).spec_max_pixel_gap(),
                self.max_toa_gap == old(self).spec_max_toa_gap(),
                self.toa_window == old(self).spec_toa_window(),
                0 <= seed <= buf.len(),
                forall|k: int| 0 <= k < seed ==> self.hits_processed@[k],
                forall|k: int| 0 <= k < buf.len() ==> (self.hits_processed@[k]
                    <==> examined_before(before, comps, comps.len() as int, k)),
                forall|j: int| 0 <= j < comps.len() ==> #[trigger] examined_component(
                    buf,
                    before,
                    comps,
                    j,
                    Some(old(self).spec_toa_window() as u64),
                    old(self).spec_max_toa_gap(),
                    old(self).spec_max_pixel_gap(),
                ),
                accepted_values(buf, comps, self.min_cluster_hits as int, self.min_sum_tot
                    as int) =~= Seq::<Seq<Hit>>::empty(),
            decreases count_unprocessed(self.hits_processed@),
        {
            proof {
                lemma_count_unprocessed_nonneg(self.hits_processed@);
            }
            let ghost count_start = count_unprocessed(self.hits_processed@);
            // advance to the oldest hit not yet examined
            while seed < self.hits_buffer.len() && self.hits_processed[seed]
                invariant
                    self.hits_buffer@ == buf,
                    self.hits_processed@.len() == buf.len(),
                    0 <= seed <= buf.len(),
                    forall|k: int| 0 <= k < seed ==> self.hits_processed@[k],
                decreases buf.len() - seed,
            {
                seed = seed + 1;
            }
            if seed >= self.hits_buffer.len() {
                proof {
                    assert(forall|k: int| 0 <= k < self.hits_processed@.len()
                        ==> self.hits_processed@[k]);
                    assert(old(self).buffer_view().skip(dd) == self.buffer_view());
                    assert(accepted_values(
                        self.buffer_view(),
                        comps,
                        old(self).spec_min_cluster_hits() as int,
                        old(self).spec_min_sum_tot() as int,
                    ).len() == 0);
                }
                return None;
            }
            let ghost p_before = self.hits_processed@;
            let members = flood_fill(
                &self.hits_buffer,
                &mut self.hits_processed,
                seed,
                Some(self.toa_window as u64),
                self.max_toa_gap,
                self.max_pixel_gap,
            );
            let ghost comps_pre = comps;
            proof {
                comps = comps.push(members@);
                assert(idx_set(members@).contains(seed as int));
                assert(!p_before[seed as int] && self.hits_processed@[seed as int]);
                lemma_count_unprocessed_strict(p_before, self.hits_processed@, seed as int);
                lemma_count_unprocessed_nonneg(self.hits_processed@);
            }
            self.total_hits_processed = self.total_hits_processed.wrapping_add(members.len());

            // collect, sort and gate the candidate cluster
            let mut cluster: Vec<Hit> = Vec::new();
            let nm = members.len();
            for t in 0..nm
                invariant
                    nm == members@.len(),
                    self.hits_buffer@ == buf,
                    forall|u: int| 0 <= u < members@.len() ==> (#[trigger] members@[u])
                        < buf.len(),
                    cluster@.len() == t,
                    forall|u: int| 0 <= u < t ==> #[trigger] cluster@[u] == buf[members@[u]
                        as int],
            {
                cluster.push(self.hits_buffer[members[t]]);
            }
            let ghost pre_sort = cluster@;
            insertion_sort_hits(&mut cluster);
            proof {
                assert(pre_sort =~= hits_at(buf, members@));
                lemma_permutation_elements(pre_sort, cluster@);
                assert forall|i: int| 0 <= i < cluster@.len() implies old(
                    self,
                ).buffer_view().contains(#[trigger] cluster@[i]) by {
                    assert(pre_sort.contains(cluster@[i]));
                    let u = choose|u: int| 0 <= u < pre_sort.len() && pre_sort[u] == cluster@[i];
                    assert(pre_sort[u] == buf[members@[u] as int]);
                    assert(buf[members@[u] as int] == buf0[dd + members@[u]]);
                }
                // the fresh component extends the record soundly
                let jnew = comps_pre.len() as int;
                assert(comps[jnew] == members@);
                assert(forall|j2: int| 0 <= j2 < comps_pre.len() ==> comps[j2] == comps_pre[j2]);
                assert forall|t: int|
                    0 <= t < members@.len() implies !examined_before(
                    before,
                    comps,
                    jnew,
                    #[trigger] members@[t] as int,
                ) by {
                    let k = members@[t] as int;
                    assert(!p_before[k]);
                    if examined_before(before, comps, jnew, k) {
                        if !(0 <= k < before.len() && before[k]) {
                            let j2 = choose|j2: int|
                                0 <= j2 < jnew && idx_set(#[trigger] comps[j2]).contains(k);
                            assert(idx_set(comps_pre[j2]).contains(k));
                        }
                        assert(examined_before(before, comps_pre, comps_pre.len() as int, k));
                    }
                }
                assert forall|k: int| 0 <= k < seed implies examined_before(
                    before,
                    comps,
                    jnew,
                    k,
                ) by {
                    assert(p_before[k]);
                    assert(examined_before(before, comps_pre, comps_pre.len() as int, k));
                    if !(0 <= k < before.len() && before[k]) {
                        let j2 = choose|j2: int|
                            0 <= j2 < comps_pre.len() && idx_set(
                            #[trigger] comps_pre[j2]).contains(k);
                        assert(idx_set(comps[j2]).contains(k));
                    }
                }
                assert forall|k: int|
                    0 <= k < buf.len() implies (self.hits_processed@[k] <==> examined_before(
                    before,
                    comps,
                    comps.len() as int,
                    k,
                )) by {
                    if self.hits_processed@[k] && !p_before[k] {
                        assert(idx_set(members@).contains(k));
                        assert(idx_set(comps[jnew]).contains(k));
                    }
                    if p_before[k] {
                        assert(examined_before(before, comps_pre, comps_pre.len() as int, k));
                        if !(0 <= k < before.len() && before[k]) {
                            let j2 = choose|j2: int|
                                0 <= j2 < comps_pre.len() && idx_set(
                                #[trigger] comps_pre[j2]).contains(k);
                            assert(idx_set(comps[j2]).contains(k));
                        }
                    }
                    if examined_before(before, comps, comps.len() as int, k)
                        && !self.hits_processed@[k] {
                        assert(!p_before[k] && !idx_set(members@).contains(k));
                        if !(0 <= k < before.len() && before[k]) {
                            let j2 = choose|j2: int|
                                0 <= j2 < comps.len() && idx_set(#[trigger] comps[j2]).contains(
                                k);
                            assert(j2 < comps_pre.len());
                            assert(idx_set(comps_pre[j2]).contains(k));
                        }
                        assert(examined_before(before, comps_pre, comps_pre.len() as int, k));
                        assert(p_before[k]);
                    }
                }
                assert forall|x: int, k: int|
                    idx_set(members@).contains(x) && 0 <= k < buf.len() && !examined_before(
                        before,
                        comps,
                        jnew + 1,
                        k,
                    ) && in_window(buf, seed as int, k, Some(old(self).spec_toa_window()
                        as u64)) implies !neighbours(
                    buf[x],
                    buf[k],
                    old(self).spec_max_toa_gap(),
                    old(self).spec_max_pixel_gap(),
                ) by {
                    assert(!self.hits_processed@[k]) by {
                        if self.hits_processed@[k] {
                            assert(examined_before(before, comps, comps.len() as int, k));
                        }
                    }
                }
                assert(examined_component(
                    buf,
                    before,
                    comps,
                    jnew,
                    Some(old(self).spec_toa_window() as u64),
                    old(self).spec_max_toa_gap(),
                    old(self).spec_max_pixel_gap(),
                )) by {
                    assert(members@[0] == seed);
                }
                assert forall|j: int|
                    #![trigger comps[j]]
                    0 <= j < comps.len() implies examined_component(
                    buf,
                    before,
                    comps,
                    j,
                    Some(old(self).spec_toa_window() as u64),
                    old(self).spec_max_toa_gap(),
                    old(self).spec_max_pixel_gap(),
                ) by {
                    if j < comps_pre.len() {
                        assert(examined_component(
                            buf,
                            before,
                            comps_pre,
                            j,
                            Some(old(self).spec_toa_window() as u64),
                            old(self).spec_max_toa_gap(),
                            old(self).spec_max_pixel_gap(),
                        ));
                        assert(comps[j] == comps_pre[j]);
                        assert forall|k: int|
                            #![trigger examined_before(before, comps, j, k)]
                            0 <= k < buf.len() implies (examined_before(before, comps, j, k)
                            <==> examined_before(before, comps_pre, j, k)) by {
                            if !(0 <= k < before.len() && before[k]) {
                                if exists|j2: int|
                                    0 <= j2 < j && idx_set(#[trigger] comps[j2]).contains(k) {
                                    let j2 = choose|j2: int|
                                        0 <= j2 < j && idx_set(comps[j2]).contains(k);
                                    assert(idx_set(comps_pre[j2]).contains(k));
                                }
                                if exists|j2: int|
                                    0 <= j2 < j && idx_set(#[trigger] comps_pre[j2]).contains(
                                    k) {
                                    let j2 = choose|j2: int|
                                        0 <= j2 < j && idx_set(comps_pre[j2]).contains(k);
                                    assert(idx_set(comps[j2]).contains(k));
                                }
                            }
                        }
                        assert forall|k: int|
                            #![trigger examined_before(before, comps, j + 1, k)]
                            0 <= k < buf.len() implies (examined_before(before, comps, j + 1, k)
                            <==> examined_before(before, comps_pre, j + 1, k)) by {
                            if !(0 <= k < before.len() && before[k]) {
                                if exists|j2: int|
                                    0 <= j2 < j + 1 && idx_set(#[trigger] comps[j2]).contains(
                                    k) {
                                    let j2 = choose|j2: int|
                                        0 <= j2 < j + 1 && idx_set(comps[j2]).contains(k);
                                    assert(idx_set(comps_pre[j2]).contains(k));
                                }
                                if exists|j2: int|
                                    0 <= j2 < j + 1 && idx_set(
                                    #[trigger] comps_pre[j2]).contains(k) {
                                    let j2 = choose|j2: int|
                                        0 <= j2 < j + 1 && idx_set(comps_pre[j2]).contains(k);
                                    assert(idx_set(comps[j2]).contains(k));
                                }
                            }
                        }
                    }
                }
                lemma_accepted_values_push(
                    buf,
                    comps_pre,
                    members@,
                    self.min_cluster_hits as int,
                    self.min_sum_tot as int,
                );
                vstd::seq_lib::to_multiset_len(pre_sort);
                vstd::seq_lib::to_multiset_len(cluster@);
                lemma_sum_tot_permutation(pre_sort, cluster@);
            }
            if cluster.len() >= self.min_cluster_hits as usize {
                let total = cluster_sum_tot(&cluster);
                proof {
                    lemma_sum_tot_nonneg(cluster@);
                }
                if total >= self.min_sum_tot as u64 {
                    self.n_clusters = self.n_clusters.wrapping_add(1);
                    proof {
                        assert(passes_gates(
                            hits_at(buf, members@),
                            self.min_cluster_hits as int,
                            self.min_sum_tot as int,
                        ));
                        let acc = accepted_values(
                            buf,
                            comps,
                            old(self).spec_min_cluster_hits() as int,
                            old(self).spec_min_sum_tot() as int,
                        );
                        assert(acc =~= seq![hits_at(buf, members@)]);
                        assert(old(self).buffer_view().skip(dd) == self.buffer_view());
                        assert(accepted_values(
                            self.buffer_view(),
                            comps,
                            old(self).spec_min_cluster_hits() as int,
                            old(self).spec_min_sum_tot() as int,
                        ) == acc);
                        assert(acc.len() == 1 && cluster@.to_multiset()
                            == acc[0].to_multiset());
                    }
                    return Some(cluster);
                } else {
                    proof {
                        assert(!passes_gates(
                            hits_at(buf, members@),
                            self.min_cluster_hits as int,
                            self.min_sum_tot as int,
                        ));
                        assert(accepted_values(
                            buf,
                            comps,
                            self.min_cluster_hits as int,
                            self.min_sum_tot as int,
                        ) =~= Seq::<Seq<Hit>>::empty());
                    }
                }
            } else {
                proof {
                    vstd::seq_lib::to_multiset_len(pre_sort);
                    assert(!passes_gates(
                        hits_at(buf, members@),
                        self.min_cluster_hits as int,
                        self.min_sum_tot as int,
                    ));
                    assert(accepted_values(
                        buf,
                        comps,
                        self.min_cluster_hits as int,
                        self.min_sum_tot as int,
                    ) =~= Seq::<Seq<Hit>>::empty());
                }
            }
        }
    }
}


// ---------------------------------------------------------------------------
// Examination records: what a full clustering pass did, component by
// component.
// ---------------------------------------------------------------------------

/// The hits named by an index list.
pub open spec fn hits_at(hits: Seq<Hit>, m: Seq<usize>) -> Seq<Hit> {
    m.map_values(|t: usize| hits[t as int])
}

/// Both acceptance gates: enough hits and enough summed charge.
pub open spec fn passes_gates(c: Seq<Hit>, min_hits: int, min_tot: int) -> bool {
    c.len() >= min_hits && sum_tot(c) >= min_tot
}

/// Whether index `k` was already examined when component `j` was seeded:
/// either processed before the pass began, or a member of an earlier
/// component.
pub open spec fn examined_before(
    before: Seq<bool>,
    comps: Seq<Seq<usize>>,
    j: int,
    k: int,
) -> bool {
    (0 <= k < before.len() && before[k]) || exists|j2: int|
        0 <= j2 < j && idx_set(#[trigger] comps[j2]).contains(k)
}

/// Component `j` of an examination record: a fresh, duplicate-free flood
/// component seeded at its first index — the least index not yet examined —
/// whose members all lie in the seed's window and reach the seed through
/// the component, and which leaves no unexamined in-window hit adjacent to
/// any member.
pub open spec fn examined_component(
    hits: Seq<Hit>,
    before: Seq<bool>,
    comps: Seq<Seq<usize>>,
    j: int,
    window: Option<u64>,
    tg: u32,
    pg: u32,
) -> bool {
    let m = comps[j];
    let seed = m[0] as int;
    &&& m.len() >= 1
    &&& (forall|t: int| 0 <= t < m.len() ==> (#[trigger] m[t]) < hits.len())
    &&& (forall|t1: int, t2: int| 0 <= t1 < t2 < m.len() ==> m[t1] != m[t2])
    &&& (forall|t: int| 0 <= t < m.len() ==> !examined_before(
        before,
        comps,
        j,
        #[trigger] m[t] as int,
    ))
    &&& (forall|k: int| 0 <= k < seed ==> examined_before(before, comps, j, k))
    &&& (forall|t: int| 0 <= t < m.len() ==> in_window(
        hits,
        seed,
        #[trigger] m[t] as int,
        window,
    ))
    &&& (forall|k: int| idx_set(m).contains(k) ==> connected_in(
        hits,
        idx_set(m),
        seed,
        k,
        tg,
        pg,
    ))
    &&& (forall|x: int, k: int| idx_set(m).contains(x) && 0 <= k < hits.len()
        && !examined_before(before, comps, j + 1, k) && in_window(hits, seed, k, window)
        ==> !neighbours(hits[x], hits[k], tg, pg))
}

/// A whole examination record: every component sound, and every hit of the
/// stream examined by the time the record ends.
pub open spec fn examination_record(
    hits: Seq<Hit>,
    before: Seq<bool>,
    comps: Seq<Seq<usize>>,
    window: Option<u64>,
    tg: u32,
    pg: u32,
) -> bool {
    &&& (forall|j: int| 0 <= j < comps.len() ==> examined_component(
        hits,
        before,
        comps,
        j,
        window,
        tg,
        pg,
    ))
    &&& (forall|k: int| 0 <= k < hits.len() ==> examined_before(
        before,
        comps,
        comps.len() as int,
        k,
    ))
}

/// The returned clusters are the record's accepted components, in order,
/// each time-sorted.
pub open spec fn accepted_match(
    hits: Seq<Hit>,
    comps: Seq<Seq<usize>>,
    clusters: Seq<Vec<Hit>>,
    min_hits: int,
    min_tot: int,
) -> bool {
    let acc = accepted_values(hits, comps, min_hits, min_tot);
    &&& clusters.len() == acc.len()
    &&& (forall|r: int| 0 <= r < clusters.len() ==> (hits_sorted(#[trigger] clusters[r]@)
        && clusters[r]@.to_multiset() == acc[r].to_multiset()))
}

/// The hits of each component that passes both gates, in order.
pub open spec fn accepted_values(
    hits: Seq<Hit>,
    comps: Seq<Seq<usize>>,
    min_hits: int,
    min_tot: int,
) -> Seq<Seq<Hit>>
    decreases comps.len(),
{
    if comps.len() == 0 {
        Seq::empty()
    } else {
        (if passes_gates(hits_at(hits, comps[0]), min_hits, min_tot) {
            seq![hits_at(hits, comps[0])]
        } else {
            Seq::empty()
        }) + accepted_values(hits, comps.drop_first(), min_hits, min_tot)
    }
}

proof fn lemma_accepted_values_push(
    hits: Seq<Hit>,
    comps: Seq<Seq<usize>>,
    m: Seq<usize>,
    min_hits: int,
    min_tot: int,
)
    ensures
        accepted_values(hits, comps.push(m), min_hits, min_tot) =~= accepted_values(
            hits,
            comps,
            min_hits,
            min_tot,
        ) + (if passes_gates(hits_at(hits, m), min_hits, min_tot) {
            seq![hits_at(hits, m)]
        } else {
            Seq::<Seq<Hit>>::empty()
        }),
    decreases comps.len(),
{
    reveal_with_fuel(accepted_values, 3);
    if comps.len() == 0 {
        assert(comps.push(m).drop_first() =~= Seq::<Seq<usize>>::empty());
        assert(comps.push(m)[0] == m);
    } else {
        assert(comps.push(m)[0] == comps[0]);
        assert(comps.push(m).drop_first() =~= comps.drop_first().push(m));
        lemma_accepted_values_push(hits, comps.drop_first(), m, min_hits, min_tot);
    }
}

proof fn lemma_sum_tot_remove(s: Seq<Hit>, i: int)
    requires
        0 <= i < s.len(),
    ensures
        sum_tot(s.remove(i)) == sum_tot(s) - s[i].tot,
    decreases s.len(),
{
    reveal_with_fuel(sum_tot, 3);
    if i == 0 {
        assert(s.remove(0) =~= s.drop_first());
    } else {
        assert(s.remove(i)[0] == s[0]);
        assert(s.remove(i).drop_first() =~= s.drop_first().remove(i - 1));
        lemma_sum_tot_remove(s.drop_first(), i - 1);
    }
}

/// Equal multisets have equal charge sums: the gates do not care about
/// order.
pub proof fn lemma_sum_tot_permutation(a: Seq<Hit>, b: Seq<Hit>)
    requires
        a.to_multiset() == b.to_multiset(),
    ensures
        sum_tot(a) == sum_tot(b),
    decreases a.len(),
{
    broadcast use vstd::seq_lib::group_to_multiset_ensures;
    broadcast use vstd::multiset::group_multiset_axioms;

    if a.len() == 0 {
        vstd::seq_lib::to_multiset_len(a);
        vstd::seq_lib::to_multiset_len(b);
        assert(b.len() == 0);
    } else {
        assert(b.to_multiset().count(a[0]) > 0);
        assert(b.contains(a[0]));
        let i = choose|i: int| 0 <= i < b.len() && b[i] == a[0];
        lemma_sum_tot_remove(b, i);
        assert(a.remove(0) =~= a.drop_first());
        vstd::seq_lib::to_multiset_remove(a, 0);
        vstd::seq_lib::to_multiset_remove(b, i);
        assert(a.drop_first().to_multiset() == b.remove(i).to_multiset());
        lemma_sum_tot_permutation(a.drop_first(), b.remove(i));
    }
}

// ---------------------------------------------------------------------------
// The trigger-event cluster finder.
// ---------------------------------------------------------------------------

/// Flood-fills a whole, already-windowed event. The result is exactly the
/// gate-passing flood components of the event, in seed order, each
/// time-sorted: some examination record covers every hit, its components
/// are connected and maximal, and the returned clusters are the accepted
/// components\u{2019} hits. Rejected components stay consumed, so a rejected
/// seed can take neighbours away from a later cluster; this is deliberate,
/// so that no hit is examined twice.
pub fn find_cluster(
    hits: &Vec<Hit>,
    min_cluster_hits: usize,
    min_cluster_tot: u32,
    max_pixel_gap: u32,
    max_toa_gap: u32,
) -> (clusters: Vec<Vec<Hit>>)
    ensures
        forall|c: int| 0 <= c < clusters@.len() ==> ((#[trigger] clusters@[c])@.len()
            >= min_cluster_hits && sum_tot(clusters@[c]@) >= min_cluster_tot && hits_sorted(
            clusters@[c]@,
        ) && (forall|i: int| 0 <= i < clusters@[c]@.len() ==> hits@.contains(
            #[trigger] clusters@[c]@[i],
        ))),
        exists|comps: Seq<Seq<usize>>|
            #![trigger accepted_values(hits@, comps, min_cluster_hits as int, min_cluster_tot as int)]
            (examination_record(
                hits@,
                Seq::new(hits@.len(), |k: int| false),
                comps,
                Option::<u64>::None,
                max_toa_gap,
                max_pixel_gap,
            ) && accepted_match(
                hits@,
                comps,
                clusters@,
                min_cluster_hits as int,
                min_cluster_tot as int,
            )),
{
    let n = hits.len();
    let ghost before = Seq::new(hits@.len(), |k: int| false);
    let ghost mut comps: Seq<Seq<usize>> = Seq::empty();
    let mut processed: Vec<bool> = Vec::new();
    for i in 0..n
        invariant
            processed@.len() == i,
            forall|k: int| 0 <= k < i ==> !(#[trigger] processed@[k]),
    {
        processed.push(false);
    }
    let mut clusters: Vec<Vec<Hit>> = Vec::new();
    let mut i: usize = 0;
    proof {
        assert(accepted_values(
            hits@,
            comps,
            min_cluster_hits as int,
            min_cluster_tot as int,
        ) =~= Seq::<Seq<Hit>>::empty());
    }
    while i < n
        invariant
            n == hits@.len(),
            before == Seq::new(hits@.len(), |k: int| false),
            processed@.len() == n,
            0 <= i <= n,
            forall|k: int| 0 <= k < i ==> processed@[k],
            forall|k: int| 0 <= k < n ==> (processed@[k] <==> examined_before(
                before,
                comps,
                comps.len() as int,
                k,
            )),
            forall|j: int| 0 <= j < comps.len() ==> examined_component(
                hits@,
                before,
                comps,
                j,
                Option::<u64>::None,
                max_toa_gap,
                max_pixel_gap,
            ),
            clusters@.len() == accepted_values(
                hits@,
                comps,
                min_cluster_hits as int,
                min_cluster_tot as int,
            ).len(),
            forall|r: int| 0 <= r < clusters@.len() ==> (hits_sorted(#[trigger] clusters@[r]@)
                && clusters@[r]@.to_multiset() == accepted_values(
                hits@,
                comps,
                min_cluster_hits as int,
                min_cluster_tot as int,
            )[r].to_multiset()),
            forall|c: int| 0 <= c < clusters@.len() ==> ((#[trigger] clusters@[c])@.len()
                >= min_cluster_hits && sum_tot(clusters@[c]@) >= min_cluster_tot && hits_sorted(
                clusters@[c]@,
            ) && (forall|j: int| 0 <= j < clusters@[c]@.len() ==> hits@.contains(
                #[trigger] clusters@[c]@[j],
            ))),
        decreases n - i,
    {
        if !processed[i] {
            let ghost p_before = processed@;
            let members = flood_fill(hits, &mut processed, i, None, max_toa_gap, max_pixel_gap);
            let ghost comps_pre = comps;
            proof {
                comps = comps.push(members@);
            }
            let mut cluster: Vec<Hit> = Vec::new();
            let nm = members.len();
            for t in 0..nm
                invariant
                    nm == members@.len(),
                    n == hits@.len(),
                    forall|u: int| 0 <= u < members@.len() ==> (#[trigger] members@[u])
                        < hits@.len(),
                    cluster@.len() == t,
                    forall|u: int| 0 <= u < t ==> #[trigger] cluster@[u] == hits@[members@[u]
                        as int],
            {
                cluster.push(hits[members[t]]);
            }
            let ghost pre_sort = cluster@;
            insertion_sort_hits(&mut cluster);
            proof {
                assert(pre_sort =~= hits_at(hits@, members@));
                lemma_permutation_elements(pre_sort, cluster@);
                assert forall|j: int| 0 <= j < cluster@.len() implies hits@.contains(
                    #[trigger] cluster@[j],
                ) by {
                    assert(pre_sort.contains(cluster@[j]));
                    let u = choose|u: int| 0 <= u < pre_sort.len() && pre_sort[u] == cluster@[j];
                    assert(pre_sort[u] == hits@[members@[u] as int]);
                }
                // the fresh component extends the record soundly
                assert(comps[comps_pre.len() as int] == members@);
                assert(forall|j2: int| 0 <= j2 < comps_pre.len() ==> comps[j2] == comps_pre[j2]);
                assert forall|k: int|
                    0 <= k < n implies (p_before[k] <==> examined_before(
                    before,
                    comps,
                    comps_pre.len() as int,
                    k,
                )) by {
                    if examined_before(before, comps, comps_pre.len() as int, k) {
                        if !before[k] {
                            let j2 = choose|j2: int|
                                0 <= j2 < comps_pre.len() && idx_set(comps[j2]).contains(k);
                            assert(idx_set(comps_pre[j2]).contains(k));
                            assert(examined_before(before, comps_pre, comps_pre.len() as int, k));
                        }
                    }
                    if p_before[k] {
                        assert(examined_before(before, comps_pre, comps_pre.len() as int, k));
                        if !before[k] {
                            let j2 = choose|j2: int|
                                0 <= j2 < comps_pre.len() && idx_set(comps_pre[j2]).contains(k);
                            assert(idx_set(comps[j2]).contains(k));
                        }
                    }
                }
                assert forall|k: int|
                    0 <= k < n implies (processed@[k] <==> examined_before(
                    before,
                    comps,
                    comps.len() as int,
                    k,
                )) by {
                    if processed@[k] && !p_before[k] {
                        assert(idx_set(members@).contains(k));
                        assert(idx_set(comps[comps_pre.len() as int]).contains(k));
                    }
                    if examined_before(before, comps, comps.len() as int, k) && !processed@[k] {
                        assert(!p_before[k] && !idx_set(members@).contains(k));
                        if !before[k] {
                            let j2 = choose|j2: int|
                                0 <= j2 < comps.len() && idx_set(comps[j2]).contains(k);
                            assert(j2 < comps_pre.len());
                            assert(examined_before(before, comps, comps_pre.len() as int, k));
                        }
                    }
                }
                let ghost jnew = comps_pre.len() as int;
                assert forall|t: int|
                    0 <= t < members@.len() implies !examined_before(
                    before,
                    comps,
                    jnew,
                    #[trigger] members@[t] as int,
                ) by {
                    let k = members@[t] as int;
                    assert(!p_before[k]);
                    if examined_before(before, comps, jnew, k) {
                        assert(!before[k]);
                        let j2 = choose|j2: int|
                            0 <= j2 < jnew && idx_set(#[trigger] comps[j2]).contains(k);
                        assert(idx_set(comps_pre[j2]).contains(k));
                        assert(examined_before(before, comps_pre, comps_pre.len() as int, k));
                    }
                }
                assert forall|k: int| 0 <= k < i implies examined_before(
                    before,
                    comps,
                    jnew,
                    k,
                ) by {
                    assert(p_before[k]);
                    assert(examined_before(before, comps_pre, comps_pre.len() as int, k));
                    if !before[k] {
                        let j2 = choose|j2: int|
                            0 <= j2 < comps_pre.len() && idx_set(
                            #[trigger] comps_pre[j2]).contains(k);
                        assert(idx_set(comps[j2]).contains(k));
                    }
                }
                assert forall|x: int, k: int|
                    idx_set(members@).contains(x) && 0 <= k < hits@.len() && !examined_before(
                        before,
                        comps,
                        jnew + 1,
                        k,
                    ) && in_window(hits@, i as int, k, Option::<u64>::None) implies !neighbours(
                    hits@[x],
                    hits@[k],
                    max_toa_gap,
                    max_pixel_gap,
                ) by {
                    assert(!processed@[k]) by {
                        if processed@[k] {
                            assert(examined_before(before, comps, comps.len() as int, k));
                        }
                    }
                }
                assert(examined_component(
                    hits@,
                    before,
                    comps,
                    jnew,
                    Option::<u64>::None,
                    max_toa_gap,
                    max_pixel_gap,
                )) by {
                    assert(comps[jnew] == members@);
                    assert(members@[0] == i);
                }
                assert forall|j: int| 0 <= j < comps.len() implies examined_component(
                    hits@,
                    before,
                    comps,
                    j,
                    Option::<u64>::None,
                    max_toa_gap,
                    max_pixel_gap,
                ) by {
                    if j < comps_pre.len() {
                        assert(examined_component(
                            hits@,
                            before,
                            comps_pre,
                            j,
                            Option::<u64>::None,
                            max_toa_gap,
                            max_pixel_gap,
                        ));
                        assert(comps[j] == comps_pre[j]);
                        assert forall|k: int|
                            #![trigger examined_before(before, comps, j, k)]
                            0 <= k < n implies (examined_before(before, comps, j, k)
                            <==> examined_before(before, comps_pre, j, k)) by {
                            if !before[k] {
                                if exists|j2: int|
                                    0 <= j2 < j && idx_set(#[trigger] comps[j2]).contains(k) {
                                    let j2 = choose|j2: int|
                                        0 <= j2 < j && idx_set(comps[j2]).contains(k);
                                    assert(idx_set(comps_pre[j2]).contains(k));
                                }
                                if exists|j2: int|
                                    0 <= j2 < j && idx_set(#[trigger] comps_pre[j2]).contains(
                                    k) {
                                    let j2 = choose|j2: int|
                                        0 <= j2 < j && idx_set(comps_pre[j2]).contains(k);
                                    assert(idx_set(comps[j2]).contains(k));
                                }
                            }
                        }
                        assert forall|k: int|
                            #![trigger examined_before(before, comps, j + 1, k)]
                            0 <= k < n implies (examined_before(before, comps, j + 1, k)
                            <==> examined_before(before, comps_pre, j + 1, k)) by {
                            if !before[k] {
                                if exists|j2: int|
                                    0 <= j2 < j + 1 && idx_set(#[trigger] comps[j2]).contains(
                                    k) {
                                    let j2 = choose|j2: int|
                                        0 <= j2 < j + 1 && idx_set(comps[j2]).contains(k);
                                    assert(idx_set(comps_pre[j2]).contains(k));
                                }
                                if exists|j2: int|
                                    0 <= j2 < j + 1 && idx_set(
                                    #[trigger] comps_pre[j2]).contains(k) {
                                    let j2 = choose|j2: int|
                                        0 <= j2 < j + 1 && idx_set(comps_pre[j2]).contains(k);
                                    assert(idx_set(comps[j2]).contains(k));
                                }
                            }
                        }
                    }
                }
                lemma_accepted_values_push(
                    hits@,
                    comps_pre,
                    members@,
                    min_cluster_hits as int,
                    min_cluster_tot as int,
                );
                vstd::seq_lib::to_multiset_len(pre_sort);
                vstd::seq_lib::to_multiset_len(cluster@);
                lemma_sum_tot_permutation(pre_sort, cluster@);
            }
            if cluster.len() >= min_cluster_hits {
                let total = cluster_sum_tot(&cluster);
                proof {
                    lemma_sum_tot_nonneg(cluster@);
                }
                if total >= min_cluster_tot as u64 {
                    clusters.push(cluster);
                    proof {
                        assert(passes_gates(
                            hits_at(hits@, members@),
                            min_cluster_hits as int,
                            min_cluster_tot as int,
                        ));
                    }
                } else {
                    proof {
                        assert(!passes_gates(
                            hits_at(hits@, members@),
                            min_cluster_hits as int,
                            min_cluster_tot as int,
                        ));
                    }
                }
            } else {
                proof {
                    vstd::seq_lib::to_multiset_len(pre_sort);
                    assert(!passes_gates(
                        hits_at(hits@, members@),
                        min_cluster_hits as int,
                        min_cluster_tot as int,
                    ));
                }
            }
        }
        i = i + 1;
    }
    proof {
        assert forall|k: int| 0 <= k < hits@.len() implies examined_before(
            before,
            comps,
            comps.len() as int,
            k,
        ) by {
            assert(processed@[k]);
        }
    }
    clusters
}

/// The trigger-event rule: an event contributes a cluster exactly when its
/// hits resolve to exactly one accepted cluster, and then that cluster is
/// returned; events whose examination record accepts none or several are
/// dropped whole.
pub fn cluster_trigger_event(
    hits: &Vec<Hit>,
    min_cluster_hits: usize,
    min_cluster_tot: u32,
    max_pixel_gap: u32,
    max_toa_gap: u32,
) -> (r: Option<Vec<Hit>>)
    ensures
        r matches Some(c) ==> (c@.len() >= min_cluster_hits && sum_tot(c@) >= min_cluster_tot
            && hits_sorted(c@) && (forall|i: int| 0 <= i < c@.len() ==> hits@.contains(
            #[trigger] c@[i],
        ))),
        exists|comps: Seq<Seq<usize>>|
            #![trigger accepted_values(hits@, comps, min_cluster_hits as int, min_cluster_tot as int)]
            (examination_record(
                hits@,
                Seq::new(hits@.len(), |k: int| false),
                comps,
                Option::<u64>::None,
                max_toa_gap,
                max_pixel_gap,
            ) && {
                let acc = accepted_values(
                    hits@,
                    comps,
                    min_cluster_hits as int,
                    min_cluster_tot as int,
                );
                &&& (acc.len() == 1 ==> (r matches Some(c) && hits_sorted(c@)
                    && c@.to_multiset() == acc[0].to_multiset()))
                &&& (acc.len() != 1 ==> r is None)
            }),
{
    let mut clusters = find_cluster(hits, min_cluster_hits, min_cluster_tot, max_pixel_gap,
        max_toa_gap);
    let ghost comps = choose|comps: Seq<Seq<usize>>|
        #![trigger accepted_values(hits@, comps, min_cluster_hits as int, min_cluster_tot as int)]
        (examination_record(
            hits@,
            Seq::new(hits@.len(), |k: int| false),
            comps,
            Option::<u64>::None,
            max_toa_gap,
            max_pixel_gap,
        ) && accepted_match(
            hits@,
            comps,
            clusters@,
            min_cluster_hits as int,
            min_cluster_tot as int,
        ));
    if clusters.len() == 1 {
        let ghost only = clusters@[0];
        let r = clusters.pop();
        proof {
            assert(r matches Some(c) && c == only);
        }
        r
    } else {
        None
    }
}

} // verus!
