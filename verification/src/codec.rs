//! Binary codec for hit records and cluster streams.
//!
//! A hit on disk is a fixed 16-byte little-endian record:
//! `u16 col | u16 row | u64 toa | u32 tot`. A cluster stream is a
//! concatenation of (variable-length cluster, 16 zero bytes) pairs; the
//! all-zero record is the cluster terminator and never a real hit.

use vstd::prelude::*;

use crate::Hit;

verus! {

// ---------------------------------------------------------------------------
// Little-endian byte strings for the fixed-width fields.
// ---------------------------------------------------------------------------

/// The two little-endian bytes of a `u16`.
pub open spec fn u16_le(v: u16) -> Seq<u8> {
    let v0 = v as int;
    let v1 = v0 / 256;
    seq![(v0 % 256) as u8, (v1 % 256) as u8]
}

/// The four little-endian bytes of a `u32`.
pub open spec fn u32_le(v: u32) -> Seq<u8> {
    let v0 = v as int;
    let v1 = v0 / 256;
    let v2 = v1 / 256;
    let v3 = v2 / 256;
    seq![(v0 % 256) as u8, (v1 % 256) as u8, (v2 % 256) as u8, (v3 % 256) as u8]
}

/// The eight little-endian bytes of a `u64`.
pub open spec fn u64_le(v: u64) -> Seq<u8> {
    let v0 = v as int;
    let v1 = v0 / 256;
    let v2 = v1 / 256;
    let v3 = v2 / 256;
    let v4 = v3 / 256;
    let v5 = v4 / 256;
    let v6 = v5 / 256;
    let v7 = v6 / 256;
    seq![
        (v0 % 256) as u8,
        (v1 % 256) as u8,
        (v2 % 256) as u8,
        (v3 % 256) as u8,
        (v4 % 256) as u8,
        (v5 % 256) as u8,
        (v6 % 256) as u8,
        (v7 % 256) as u8,
    ]
}

/// The value of a little-endian byte string (Horner form).
pub open spec fn le_val(s: Seq<u8>) -> int
    decreases s.len(),
{
    if s.len() == 0 {
        0
    } else {
        s[0] + 256 * le_val(s.drop_first())
    }
}

pub proof fn lemma_u16_le_val(v: u16)
    ensures
        u16_le(v).len() == 2,
        le_val(u16_le(v)) == v,
{
    reveal_with_fuel(le_val, 3);
    let s = u16_le(v);
    assert(s.drop_first() =~= seq![s[1]]);
    assert(s.drop_first().drop_first() =~= Seq::<u8>::empty());
}

pub proof fn lemma_u32_le_val(v: u32)
    ensures
        u32_le(v).len() == 4,
        le_val(u32_le(v)) == v,
{
    reveal_with_fuel(le_val, 5);
    let s = u32_le(v);
    assert(s.drop_first() =~= seq![s[1], s[2], s[3]]);
    assert(s.drop_first().drop_first() =~= seq![s[2], s[3]]);
    assert(s.drop_first().drop_first().drop_first() =~= seq![s[3]]);
    assert(s.drop_first().drop_first().drop_first().drop_first() =~= Seq::<u8>::empty());
}

pub proof fn lemma_u64_le_val(v: u64)
    ensures
        u64_le(v).len() == 8,
        le_val(u64_le(v)) == v,
{
    reveal_with_fuel(le_val, 9);
    let s = u64_le(v);
    let s1 = s.drop_first();
    let s2 = s1.drop_first();
    let s3 = s2.drop_first();
    let s4 = s3.drop_first();
    let s5 = s4.drop_first();
    let s6 = s5.drop_first();
    let s7 = s6.drop_first();
    assert(s1 =~= seq![s[1], s[2], s[3], s[4], s[5], s[6], s[7]]);
    assert(s2 =~= seq![s[2], s[3], s[4], s[5], s[6], s[7]]);
    assert(s3 =~= seq![s[3], s[4], s[5], s[6], s[7]]);
    assert(s4 =~= seq![s[4], s[5], s[6], s[7]]);
    assert(s5 =~= seq![s[5], s[6], s[7]]);
    assert(s6 =~= seq![s[6], s[7]]);
    assert(s7 =~= seq![s[7]]);
    assert(s7.drop_first() =~= Seq::<u8>::empty());
}

// ---------------------------------------------------------------------------
// Executable little-endian writers and readers.
// ---------------------------------------------------------------------------

/// Appends the two little-endian bytes of `v`.
pub fn push_u16_le(out: &mut Vec<u8>, v: u16)
    ensures
        final(out)@ =~= old(out)@ + u16_le(v),
{
    out.push((v % 256) as u8);
    out.push((v / 256 % 256) as u8);
}

/// Appends the four little-endian bytes of `v`.
pub fn push_u32_le(out: &mut Vec<u8>, v: u32)
    ensures
        final(out)@ =~= old(out)@ + u32_le(v),
{
    let v1 = v / 256;
    let v2 = v1 / 256;
    let v3 = v2 / 256;
    out.push((v % 256) as u8);
    out.push((v1 % 256) as u8);
    out.push((v2 % 256) as u8);
    out.push((v3 % 256) as u8);
}

/// Appends the eight little-endian bytes of `v`.
pub fn push_u64_le(out: &mut Vec<u8>, v: u64)
    ensures
        final(out)@ =~= old(out)@ + u64_le(v),
{
    let v1 = v / 256;
    let v2 = v1 / 256;
    let v3 = v2 / 256;
    let v4 = v3 / 256;
    let v5 = v4 / 256;
    let v6 = v5 / 256;
    let v7 = v6 / 256;
    out.push((v % 256) as u8);
    out.push((v1 % 256) as u8);
    out.push((v2 % 256) as u8);
    out.push((v3 % 256) as u8);
    out.push((v4 % 256) as u8);
    out.push((v5 % 256) as u8);
    out.push((v6 % 256) as u8);
    out.push((v7 % 256) as u8);
}

/// Reads a little-endian `u16` at byte offset `off`.
pub fn read_u16_le(b: &[u8], off: usize) -> (r: u16)
    requires
        off + 2 <= b@.len(),
    ensures
        r == le_val(b@.subrange(off as int, off + 2)),
{
    let r = b[off] as u16 + 256 * (b[off + 1] as u16);
    proof {
        reveal_with_fuel(le_val, 3);
        let s = b@.subrange(off as int, off + 2);
        assert(s.drop_first() =~= seq![b@[off + 1]]);
        assert(s.drop_first().drop_first() =~= Seq::<u8>::empty());
    }
    r
}

/// Reads a little-endian `u32` at byte offset `off`.
pub fn read_u32_le(b: &[u8], off: usize) -> (r: u32)
    requires
        off + 4 <= b@.len(),
    ensures
        r == le_val(b@.subrange(off as int, off + 4)),
{
    let r = b[off] as u32 + 256 * (b[off + 1] as u32) + 65536 * (b[off + 2] as u32) + 16777216
        * (b[off + 3] as u32);
    proof {
        reveal_with_fuel(le_val, 5);
        let s = b@.subrange(off as int, off + 4);
        assert(s.drop_first() =~= seq![b@[off + 1], b@[off + 2], b@[off + 3]]);
        assert(s.drop_first().drop_first() =~= seq![b@[off + 2], b@[off + 3]]);
        assert(s.drop_first().drop_first().drop_first() =~= seq![b@[off + 3]]);
        assert(s.drop_first().drop_first().drop_first().drop_first() =~= Seq::<u8>::empty());
    }
    r
}

/// Reads a little-endian `u64` at byte offset `off`.
pub fn read_u64_le(b: &[u8], off: usize) -> (r: u64)
    requires
        off + 8 <= b@.len(),
    ensures
        r == le_val(b@.subrange(off as int, off + 8)),
{
    let lo = b[off] as u64 + 256 * (b[off + 1] as u64) + 65536 * (b[off + 2] as u64) + 16777216
        * (b[off + 3] as u64);
    let hi = b[off + 4] as u64 + 256 * (b[off + 5] as u64) + 65536 * (b[off + 6] as u64) + 16777216
        * (b[off + 7] as u64);
    let r = lo + hi * 4294967296;
    proof {
        reveal_with_fuel(le_val, 9);
        let s = b@.subrange(off as int, off + 8);
        let s1 = s.drop_first();
        let s2 = s1.drop_first();
        let s3 = s2.drop_first();
        let s4 = s3.drop_first();
        let s5 = s4.drop_first();
        let s6 = s5.drop_first();
        let s7 = s6.drop_first();
        assert(s1 =~= seq![s[1], s[2], s[3], s[4], s[5], s[6], s[7]]);
        assert(s2 =~= seq![s[2], s[3], s[4], s[5], s[6], s[7]]);
        assert(s3 =~= seq![s[3], s[4], s[5], s[6], s[7]]);
        assert(s4 =~= seq![s[4], s[5], s[6], s[7]]);
        assert(s5 =~= seq![s[5], s[6], s[7]]);
        assert(s6 =~= seq![s[6], s[7]]);
        assert(s7 =~= seq![s[7]]);
        assert(s7.drop_first() =~= Seq::<u8>::empty());
    }
    r
}

// ---------------------------------------------------------------------------
// 16-byte hit records.
// ---------------------------------------------------------------------------

/// Decoding failures for the fixed-record binary formats.
#[derive(Clone, Copy, Debug, PartialEq, Eq, Structural)]
pub enum CodecError {
    /// The byte stream is not a whole number of records.
    TruncatedStream,
    /// An all-zero record appeared where a real hit was required.
    NullHitRecord,
}

/// The reserved all-zero record that terminates a cluster.
pub open spec fn null_hit() -> Hit {
    Hit { toa: 0, tot: 0, col: 0, row: 0 }
}

/// True of the reserved cluster-terminator record.
pub open spec fn is_null_record(h: Hit) -> bool {
    h == null_hit()
}

/// The 16 little-endian bytes of one hit record.
pub open spec fn hit_bytes(h: Hit) -> Seq<u8> {
    u16_le(h.col) + u16_le(h.row) + u64_le(h.toa) + u32_le(h.tot)
}

/// The hit whose record occupies the 16 bytes `s`.
pub open spec fn record_hit(s: Seq<u8>) -> Hit {
    Hit {
        col: le_val(s.subrange(0, 2)) as u16,
        row: le_val(s.subrange(2, 4)) as u16,
        toa: le_val(s.subrange(4, 12)) as u64,
        tot: le_val(s.subrange(12, 16)) as u32,
    }
}

pub proof fn lemma_hit_record_round_trip(h: Hit)
    ensures
        hit_bytes(h).len() == 16,
        record_hit(hit_bytes(h)) == h,
{
    lemma_u16_le_val(h.col);
    lemma_u16_le_val(h.row);
    lemma_u64_le_val(h.toa);
    lemma_u32_le_val(h.tot);
    let s = hit_bytes(h);
    assert(s.subrange(0, 2) =~= u16_le(h.col));
    assert(s.subrange(2, 4) =~= u16_le(h.row));
    assert(s.subrange(4, 12) =~= u64_le(h.toa));
    assert(s.subrange(12, 16) =~= u32_le(h.tot));
}

/// Appends the 16-byte record of `h`.
pub fn push_hit_record(out: &mut Vec<u8>, h: Hit)
    ensures
        final(out)@ =~= old(out)@ + hit_bytes(h),
{
    push_u16_le(out, h.col);
    push_u16_le(out, h.row);
    push_u64_le(out, h.toa);
    push_u32_le(out, h.tot);
}

/// Reads the 16-byte record at byte offset `off`.
pub fn read_hit_record(b: &[u8], off: usize) -> (r: Hit)
    requires
        off + 16 <= b@.len(),
    ensures
        r == record_hit(b@.subrange(off as int, off + 16)),
{
    let n = b.len();
    let col = read_u16_le(b, off);
    let row = read_u16_le(b, off + 2);
    let toa = read_u64_le(b, off + 4);
    let tot = read_u32_le(b, off + 12);
    proof {
        let s = b@.subrange(off as int, off + 16);
        assert(s.subrange(0, 2) =~= b@.subrange(off as int, off + 2));
        assert(s.subrange(2, 4) =~= b@.subrange(off + 2, off + 4));
        assert(s.subrange(4, 12) =~= b@.subrange(off + 4, off + 12));
        assert(s.subrange(12, 16) =~= b@.subrange(off + 12, off + 16));
    }
    Hit { col, row, toa, tot }
}

// ---------------------------------------------------------------------------
// Flat hit streams (the on-disk sorted hit file).
// ---------------------------------------------------------------------------

/// The concatenated records of a hit sequence.
pub open spec fn hits_bytes(s: Seq<Hit>) -> Seq<u8>
    decreases s.len(),
{
    if s.len() == 0 {
        Seq::empty()
    } else {
        hit_bytes(s[0]) + hits_bytes(s.drop_first())
    }
}

pub proof fn lemma_hits_bytes_len(s: Seq<Hit>)
    ensures
        hits_bytes(s).len() == 16 * s.len(),
    decreases s.len(),
{
    if s.len() > 0 {
        lemma_hit_record_round_trip(s[0]);
        lemma_hits_bytes_len(s.drop_first());
    }
}

pub proof fn lemma_hits_bytes_push(s: Seq<Hit>, h: Hit)
    ensures
        hits_bytes(s.push(h)) =~= hits_bytes(s) + hit_bytes(h),
    decreases s.len(),
{
    if s.len() == 0 {
        assert(s.push(h).drop_first() =~= Seq::<Hit>::empty());
        assert(s.push(h)[0] == h);
        assert(hits_bytes(s.push(h)) == hit_bytes(h) + hits_bytes(Seq::<Hit>::empty()));
        assert(hits_bytes(s) == Seq::<u8>::empty());
    } else {
        assert(s.push(h)[0] == s[0]);
        assert(s.push(h).drop_first() =~= s.drop_first().push(h));
        lemma_hits_bytes_push(s.drop_first(), h);
    }
}

/// The hits encoded by a byte stream, one per whole 16-byte record; a
/// trailing fragment shorter than a record encodes nothing.
pub open spec fn hit_records(b: Seq<u8>) -> Seq<Hit>
    decreases b.len(),
{
    if b.len() < 16 {
        Seq::empty()
    } else {
        seq![record_hit(b.subrange(0, 16))] + hit_records(b.skip(16))
    }
}

pub proof fn lemma_hit_records_len(b: Seq<u8>)
    ensures
        hit_records(b).len() == b.len() / 16,
    decreases b.len(),
{
    if b.len() >= 16 {
        lemma_hit_records_len(b.skip(16));
    }
}

pub proof fn lemma_hit_records_index(b: Seq<u8>, i: int)
    requires
        0 <= i,
        16 * i + 16 <= b.len(),
    ensures
        hit_records(b).len() > i,
        hit_records(b)[i] == record_hit(b.subrange(16 * i, 16 * i + 16)),
    decreases i,
{
    lemma_hit_records_len(b);
    if i == 0 {
        assert(b.subrange(0, 16) =~= b.subrange(16int * 0, 16int * 0 + 16));
    } else {
        lemma_hit_records_index(b.skip(16), i - 1);
        assert(b.skip(16).subrange(16 * (i - 1), 16 * (i - 1) + 16) =~= b.subrange(
            16 * i,
            16 * i + 16,
        ));
    }
}

/// Concatenating whole-record streams concatenates their decodings.
pub proof fn lemma_hit_records_concat(a: Seq<u8>, b: Seq<u8>)
    requires
        a.len() % 16 == 0,
    ensures
        hit_records(a + b) =~= hit_records(a) + hit_records(b),
    decreases a.len(),
{
    if a.len() == 0 {
        assert(a + b =~= b);
    } else {
        assert(a.len() >= 16);
        lemma_hit_records_concat(a.skip(16), b);
        assert((a + b).subrange(0, 16) =~= a.subrange(0, 16));
        assert((a + b).skip(16) =~= a.skip(16) + b);
    }
}

/// Decoding inverts encoding, record for record.
pub proof fn lemma_hits_stream_round_trip(s: Seq<Hit>)
    ensures
        hits_bytes(s).len() % 16 == 0,
        hit_records(hits_bytes(s)) =~= s,
    decreases s.len(),
{
    lemma_hits_bytes_len(s);
    if s.len() > 0 {
        lemma_hit_record_round_trip(s[0]);
        lemma_hits_stream_round_trip(s.drop_first());
        lemma_hits_bytes_len(s.drop_first());
        let b = hits_bytes(s);
        assert(b.subrange(0, 16) =~= hit_bytes(s[0]));
        assert(b.skip(16) =~= hits_bytes(s.drop_first()));
    }
}

/// Encodes a sorted batch of hits, appending their records to `file`.
pub fn write_hits_to_file(file: &mut Vec<u8>, hits: &Vec<Hit>)
    ensures
        final(file)@ =~= old(file)@ + hits_bytes(hits@),
{
    let n = hits.len();
    for i in 0..n
        invariant
            n == hits@.len(),
            file@ =~= old(file)@ + hits_bytes(hits@.take(i as int)),
    {
        push_hit_record(file, hits[i]);
        proof {
            assert(hits@.take(i + 1) =~= hits@.take(i as int).push(hits@[i as int]));
            lemma_hits_bytes_push(hits@.take(i as int), hits@[i as int]);
        }
    }
    proof {
        assert(hits@.take(n as int) =~= hits@);
    }
}

/// The number of records `read_hits_data` may deliver: every whole record,
/// capped by the requested maximum.
pub open spec fn hits_read_limit(n_records: int, max_hits: Option<usize>) -> int {
    match max_hits {
        Some(m) => if n_records < m {
            n_records
        } else {
            m as int
        },
        None => n_records,
    }
}

/// Decodes a flat stream of hit records, stopping after `max_hits` records
/// when a cap is given. An all-zero record is corrupt here (the terminator
/// belongs to cluster streams only), as is a trailing partial record.
pub fn read_hits_data(data: &[u8], max_hits: Option<usize>) -> (r: Result<Vec<Hit>, CodecError>)
    ensures
        ({
            let recs = hit_records(data@);
            let m = hits_read_limit(recs.len() as int, max_hits);
            &&& (match r {
                Ok(hits) => hits@ =~= recs.take(m),
                Err(_) => true,
            })
            &&& (r matches Err(e) ==> (e == CodecError::NullHitRecord <==> exists|i: int|
                0 <= i < m && is_null_record(#[trigger] recs[i])))
            &&& (r is Err <==> ((exists|i: int| 0 <= i < m && is_null_record(#[trigger] recs[i]))
                || (m == recs.len() && data@.len() % 16 != 0)))
        }),
{
    let ghost recs = hit_records(data@);
    proof {
        lemma_hit_records_len(data@);
    }
    let data_len = data.len();
    let n = data_len / 16;
    let ghost m = hits_read_limit(recs.len() as int, max_hits);
    let mut hits: Vec<Hit> = Vec::new();
    let mut i: usize = 0;
    while i < n
        invariant
            data_len == data@.len(),
            n == data@.len() / 16,
            recs == hit_records(data@),
            recs.len() == n,
            m == hits_read_limit(recs.len() as int, max_hits),
            0 <= i <= n,
            i <= m,
            match max_hits {
                Some(mx) => i <= mx,
                None => true,
            },
            hits@ =~= recs.take(i as int),
            forall|k: int| 0 <= k < i ==> !is_null_record(#[trigger] recs[k]),
        decreases n - i,
    {
        if let Some(mx) = max_hits {
            if i >= mx {
                return Ok(hits);
            }
        }
        proof {
            lemma_hit_records_index(data@, i as int);
        }
        let h = read_hit_record(data, 16 * i);
        if h.col == 0 && h.row == 0 && h.toa == 0 && h.tot == 0 {
            return Err(CodecError::NullHitRecord);
        }
        hits.push(h);
        proof {
            assert(recs.take(i + 1) =~= recs.take(i as int).push(recs[i as int]));
        }
        i = i + 1;
    }
    if data_len % 16 != 0 {
        return Err(CodecError::TruncatedStream);
    }
    proof {
        assert(hits@ =~= recs.take(m));
    }
    Ok(hits)
}

// ---------------------------------------------------------------------------
// Cluster streams: (hits, all-zero terminator) pairs.
// ---------------------------------------------------------------------------

/// `h` with its time of arrival shifted by `adj` ticks.
pub open spec fn adjusted_hit(h: Hit, adj: int) -> Hit {
    Hit { toa: (h.toa + adj) as u64, ..h }
}

/// A whole cluster shifted by `adj` ticks.
pub open spec fn adjusted_hits(c: Seq<Hit>, adj: int) -> Seq<Hit> {
    c.map_values(|h: Hit| adjusted_hit(h, adj))
}

/// The on-disk bytes of one cluster: its (shifted) hit records followed by
/// the 16-byte all-zero terminator.
pub open spec fn cluster_bytes(c: Seq<Hit>, adj: int) -> Seq<u8> {
    hits_bytes(adjusted_hits(c, adj)) + hit_bytes(null_hit())
}

/// The on-disk bytes of a whole cluster stream (no shift).
pub open spec fn clusters_bytes(cs: Seq<Seq<Hit>>) -> Seq<u8>
    decreases cs.len(),
{
    if cs.len() == 0 {
        Seq::empty()
    } else {
        cluster_bytes(cs[0], 0) + clusters_bytes(cs.drop_first())
    }
}

/// Splits a record stream at its all-zero terminators; an unterminated
/// trailing group encodes nothing.
pub open spec fn split_clusters_from(recs: Seq<Hit>, cur: Seq<Hit>) -> Seq<Seq<Hit>>
    decreases recs.len(),
{
    if recs.len() == 0 {
        Seq::empty()
    } else if is_null_record(recs[0]) {
        seq![cur] + split_clusters_from(recs.drop_first(), Seq::empty())
    } else {
        split_clusters_from(recs.drop_first(), cur.push(recs[0]))
    }
}

/// The clusters encoded by a record stream.
pub open spec fn split_clusters(recs: Seq<Hit>) -> Seq<Seq<Hit>> {
    split_clusters_from(recs, Seq::empty())
}

/// The sequence-of-hit-sequences view of a vector of clusters.
pub open spec fn clusters_view(cs: Seq<Vec<Hit>>) -> Seq<Seq<Hit>> {
    cs.map_values(|c: Vec<Hit>| c@)
}

/// Appends one cluster: every hit record with `toa_adjustment` added to its
/// time of arrival, then the all-zero terminator. A shift that would move a
/// time of arrival outside `u64` is an invariant violation and is excluded.
pub fn write_cluster_to_file(file: &mut Vec<u8>, cluster: &[Hit], toa_adjustment: i64)
    requires
        forall|i: int| 0 <= i < cluster@.len() ==> 0 <= (#[trigger] cluster@[i]).toa
            + toa_adjustment <= u64::MAX,
    ensures
        final(file)@ =~= old(file)@ + cluster_bytes(cluster@, toa_adjustment as int),
{
    let n = cluster.len();
    for i in 0..n
        invariant
            n == cluster@.len(),
            forall|k: int| 0 <= k < cluster@.len() ==> 0 <= (#[trigger] cluster@[k]).toa
                + toa_adjustment <= u64::MAX,
            file@ =~= old(file)@ + hits_bytes(adjusted_hits(cluster@.take(i as int),
                toa_adjustment as int,
            )),
    {
        let h = cluster[i];
        let toa = if toa_adjustment >= 0 {
            h.toa + (toa_adjustment as u64)
        } else {
            h.toa - ((-(toa_adjustment + 1)) as u64 + 1)
        };
        let shifted = Hit { toa, ..h };
        push_hit_record(file, shifted);
        proof {
            assert(shifted == adjusted_hit(cluster@[i as int], toa_adjustment as int));
            let pre = adjusted_hits(cluster@.take(i as int), toa_adjustment as int);
            assert(adjusted_hits(cluster@.take(i + 1), toa_adjustment as int) =~= pre.push(
                shifted,
            ));
            lemma_hits_bytes_push(pre, shifted);
        }
    }
    push_hit_record(file, Hit { toa: 0, tot: 0, col: 0, row: 0 });
    proof {
        assert(cluster@.take(n as int) =~= cluster@);
    }
}

/// Decodes a cluster stream: whole records split at all-zero terminators.
/// The only corrupt input is a byte count that is not a whole number of
/// records; an unterminated trailing group is dropped, as the writer never
/// produces one.
pub fn read_cluster_data(data: &[u8]) -> (r: Result<Vec<Vec<Hit>>, CodecError>)
    ensures
        r is Ok <==> data@.len() % 16 == 0,
        r matches Ok(cs) ==> clusters_view(cs@) =~= split_clusters(hit_records(data@)),
        r matches Err(e) ==> e == CodecError::TruncatedStream,
{
    let ghost recs = hit_records(data@);
    proof {
        lemma_hit_records_len(data@);
    }
    let data_len = data.len();
    if data_len % 16 != 0 {
        return Err(CodecError::TruncatedStream);
    }
    let n = data_len / 16;
    let mut clusters: Vec<Vec<Hit>> = Vec::new();
    let mut cur: Vec<Hit> = Vec::new();
    let mut i: usize = 0;
    proof {
        assert(recs.skip(0) =~= recs);
        assert(clusters_view(clusters@) + split_clusters_from(recs, cur@) =~= split_clusters(
            recs,
        ));
    }
    while i < n
        invariant
            data_len == data@.len(),
            n == data@.len() / 16,
            recs == hit_records(data@),
            recs.len() == n,
            0 <= i <= n,
            clusters_view(clusters@) + split_clusters_from(recs.skip(i as int), cur@)
                =~= split_clusters(recs),
        decreases n - i,
    {
        proof {
            lemma_hit_records_index(data@, i as int);
            assert(recs.skip(i as int)[0] == recs[i as int]);
            assert(recs.skip(i as int).drop_first() =~= recs.skip(i + 1));
        }
        let h = read_hit_record(data, 16 * i);
        if h.col == 0 && h.row == 0 && h.toa == 0 && h.tot == 0 {
            let ghost pre = clusters_view(clusters@);
            let ghost curv = cur@;
            clusters.push(cur);
            cur = Vec::new();
            proof {
                assert(clusters_view(clusters@) =~= pre.push(curv));
            }
        } else {
            cur.push(h);
        }
        i = i + 1;
    }
    proof {
        assert(recs.skip(n as int) =~= Seq::<Hit>::empty());
        assert(clusters_view(clusters@) =~= split_clusters(recs));
    }
    Ok(clusters)
}

// ---------------------------------------------------------------------------
// Round-trip laws.
// ---------------------------------------------------------------------------

/// One cluster occupies one record per hit plus one terminator record.
pub proof fn lemma_cluster_bytes_len(c: Seq<Hit>, adj: int)
    ensures
        cluster_bytes(c, adj).len() == 16 * (c.len() + 1),
{
    lemma_hits_bytes_len(adjusted_hits(c, adj));
    lemma_hit_record_round_trip(null_hit());
}

proof fn lemma_hit_records_single(h: Hit)
    ensures
        hit_bytes(h).len() == 16,
        hit_records(hit_bytes(h)) =~= seq![h],
{
    reveal_with_fuel(hit_records, 3);
    lemma_hit_record_round_trip(h);
    let b = hit_bytes(h);
    assert(b.subrange(0, 16) =~= b);
    assert(b.skip(16) =~= Seq::<u8>::empty());
}

proof fn lemma_split_clusters_prefix(c: Seq<Hit>, rest: Seq<Hit>, cur: Seq<Hit>)
    requires
        forall|i: int| 0 <= i < c.len() ==> !is_null_record(#[trigger] c[i]),
    ensures
        split_clusters_from(c + seq![null_hit()] + rest, cur) =~= seq![cur + c]
            + split_clusters_from(rest, Seq::empty()),
    decreases c.len(),
{
    let whole = c + seq![null_hit()] + rest;
    if c.len() == 0 {
        assert(whole[0] == null_hit());
        assert(whole.drop_first() =~= rest);
        assert(cur + c =~= cur);
    } else {
        assert(whole[0] == c[0]);
        assert(!is_null_record(whole[0]));
        assert(whole.drop_first() =~= c.drop_first() + seq![null_hit()] + rest);
        lemma_split_clusters_prefix(c.drop_first(), rest, cur.push(c[0]));
        assert(cur.push(c[0]) + c.drop_first() =~= cur + c);
    }
}

/// Shifting by zero ticks changes nothing.
pub proof fn lemma_adjusted_hits_zero(c: Seq<Hit>)
    ensures
        adjusted_hits(c, 0) =~= c,
{
    assert forall|i: int| 0 <= i < c.len() implies adjusted_hits(c, 0)[i] == c[i] by {
        assert(adjusted_hit(c[i], 0) == c[i]);
    }
}

/// Law: decoding a cluster stream inverts encoding it, cluster for cluster,
/// empty clusters and their terminators included, provided no stored hit is
/// the reserved all-zero record.
/// The records of one encoded cluster: its hits then the terminator.
proof fn lemma_cluster_head_records(c: Seq<Hit>)
    ensures
        cluster_bytes(c, 0).len() == 16 * (c.len() + 1),
        cluster_bytes(c, 0).len() % 16 == 0,
        hit_records(cluster_bytes(c, 0)) =~= c + seq![null_hit()],
{
    lemma_cluster_bytes_len(c, 0);
    lemma_adjusted_hits_zero(c);
    lemma_hits_stream_round_trip(c);
    lemma_hits_bytes_len(c);
    lemma_hit_records_single(null_hit());
    assert(cluster_bytes(c, 0) =~= hits_bytes(c) + hit_bytes(null_hit()));
    lemma_hit_records_concat(hits_bytes(c), hit_bytes(null_hit()));
}

pub proof fn lemma_cluster_stream_round_trip(cs: Seq<Seq<Hit>>)
    requires
        forall|i: int, j: int| 0 <= i < cs.len() && 0 <= j < cs[i].len() ==> !is_null_record(
            #[trigger] cs[i][j],
        ),
    ensures
        clusters_bytes(cs).len() % 16 == 0,
        split_clusters(hit_records(clusters_bytes(cs))) =~= cs,
    decreases cs.len(),
{
    if cs.len() == 0 {
        assert(hit_records(clusters_bytes(cs)) =~= Seq::<Hit>::empty());
    } else {
        let c0 = cs[0];
        let rest = cs.drop_first();
        lemma_cluster_stream_round_trip(rest);
        lemma_cluster_head_records(c0);
        let head = cluster_bytes(c0, 0);
        let tail = clusters_bytes(rest);
        assert(clusters_bytes(cs) == head + tail);
        lemma_hit_records_concat(head, tail);
        assert(hit_records(clusters_bytes(cs)) =~= c0 + seq![null_hit()] + hit_records(tail));
        lemma_split_clusters_prefix(c0, hit_records(tail), Seq::empty());
        assert(Seq::<Hit>::empty() + c0 =~= c0);
        assert(split_clusters(hit_records(clusters_bytes(cs))) =~= seq![c0] + split_clusters(
            hit_records(tail),
        ));
        assert(seq![c0] + rest =~= cs);
    }
}

/// Law: decoding a flat hit stream inverts encoding it, provided no hit is
/// the reserved all-zero record; such a stream reads back in full.
pub proof fn lemma_hits_bin_round_trip(hits: Seq<Hit>)
    requires
        forall|i: int| 0 <= i < hits.len() ==> !is_null_record(#[trigger] hits[i]),
    ensures
        hits_bytes(hits).len() % 16 == 0,
        hit_records(hits_bytes(hits)) =~= hits,
        hits_read_limit(hit_records(hits_bytes(hits)).len() as int, None) == hits.len(),
{
    lemma_hits_stream_round_trip(hits);
}

// ---------------------------------------------------------------------------
// Record cursors over in-memory streams.
// ---------------------------------------------------------------------------

/// A cursor over a flat hit stream, one record at a time. A trailing
/// fragment shorter than a record ends the stream.
pub struct ReadHitsIterator {
    data: Vec<u8>,
    pos: usize,
}

impl ReadHitsIterator {
    /// The bytes being read.
    pub closed spec fn data_view(self) -> Seq<u8> {
        self.data@
    }

    /// How many records have been delivered.
    pub closed spec fn records_read(self) -> int {
        self.pos as int / 16
    }

    /// The cursor sits on a record boundary.
    pub closed spec fn wf(self) -> bool {
        self.pos % 16 == 0 && self.pos <= self.data@.len()
    }

    /// A cursor at the start of `data`.
    pub fn new(data: Vec<u8>) -> (r: ReadHitsIterator)
        ensures
            r.wf(),
            r.data_view() == data@,
            r.records_read() == 0,
    {
        ReadHitsIterator { data, pos: 0 }
    }

    /// The next hit record, or nothing at the end of the stream.
    pub fn next(&mut self) -> (r: Option<Hit>)
        requires
            old(self).wf(),
        ensures
            final(self).wf(),
            final(self).data_view() == old(self).data_view(),
            ({
                let recs = hit_records(old(self).data_view());
                match r {
                    Some(h) => {
                        &&& old(self).records_read() < recs.len()
                        &&& h == recs[old(self).records_read()]
                        &&& final(self).records_read() == old(self).records_read() + 1
                    },
                    None => {
                        &&& old(self).records_read() >= recs.len()
                        &&& final(self).records_read() == old(self).records_read()
                    },
                }
            }),
    {
        proof {
            lemma_hit_records_len(self.data@);
        }
        let n = self.data.len();
        if n >= 16 && self.pos <= n - 16 {
            proof {
                lemma_hit_records_index(self.data@, self.pos as int / 16);
                assert(16 * (self.pos as int / 16) == self.pos as int);
            }
            let h = read_hit_record(self.data.as_slice(), self.pos);
            self.pos = self.pos + 16;
            Some(h)
        } else {
            None
        }
    }
}

/// A cursor over a cluster stream, one cluster at a time: hits up to each
/// all-zero terminator. An unterminated trailing group ends the stream.
pub struct ReadClusterIterator {
    data: Vec<u8>,
    pos: usize,
    emitted: Ghost<Seq<Seq<Hit>>>,
}

impl ReadClusterIterator {
    /// The bytes being read.
    pub closed spec fn data_view(self) -> Seq<u8> {
        self.data@
    }

    /// The clusters delivered so far.
    pub closed spec fn emitted_clusters(self) -> Seq<Seq<Hit>> {
        self.emitted@
    }

    /// The cursor sits on a record boundary and what it has emitted plus
    /// what remains is the whole stream's cluster list.
    pub closed spec fn wf(self) -> bool {
        &&& self.pos % 16 == 0
        &&& self.pos <= self.data@.len()
        &&& self.emitted@ + split_clusters(hit_records(self.data@.skip(self.pos as int)))
            =~= split_clusters(hit_records(self.data@))
    }

    /// A cursor at the start of `data`.
    pub fn new(data: Vec<u8>) -> (r: ReadClusterIterator)
        ensures
            r.wf(),
            r.data_view() == data@,
            r.emitted_clusters() =~= Seq::<Seq<Hit>>::empty(),
    {
        let ghost view = data@;
        let r = ReadClusterIterator { data, pos: 0, emitted: Ghost(Seq::empty()) };
        proof {
            assert(view.skip(0) =~= view);
            assert(r.emitted@ + split_clusters(hit_records(view)) =~= split_clusters(
                hit_records(view),
            ));
        }
        r
    }

    /// The next cluster, or nothing once every terminated cluster is out.
    pub fn next(&mut self) -> (r: Option<Vec<Hit>>)
        requires
            old(self).wf(),
        ensures
            final(self).wf(),
            final(self).data_view() == old(self).data_view(),
            ({
                let all = split_clusters(hit_records(old(self).data_view()));
                match r {
                    Some(c) => {
                        &&& old(self).emitted_clusters().len() < all.len()
                        &&& c@ =~= all[old(self).emitted_clusters().len() as int]
                        &&& final(self).emitted_clusters() =~= old(
                            self,
                        ).emitted_clusters().push(c@)
                    },
                    None => {
                        &&& final(self).emitted_clusters() == old(self).emitted_clusters()
                        &&& old(self).emitted_clusters().len() == all.len()
                    },
                }
            }),
    {
        let n = self.data.len();
        let mut cur: Vec<Hit> = Vec::new();
        while n >= 16 && self.pos <= n - 16
            invariant_except_break
                self.data@ == old(self).data@,
                self.emitted@ == old(self).emitted@,
                n == self.data@.len(),
                self.pos % 16 == 0,
                self.pos <= n,
                self.emitted@ + split_clusters_from(
                    hit_records(self.data@.skip(self.pos as int)),
                    cur@,
                ) =~= split_clusters(hit_records(self.data@)),
            ensures
                self.data@ == old(self).data@,
                self.emitted@ == old(self).emitted@,
                n == self.data@.len(),
                self.pos % 16 == 0,
                self.pos <= n,
                (self.emitted@ + split_clusters_from(
                    hit_records(self.data@.skip(self.pos as int)),
                    cur@,
                ) =~= split_clusters(hit_records(self.data@))),
                self.pos + 16 <= n ==> is_null_record(
                    hit_records(self.data@.skip(self.pos as int))[0],
                ),
            decreases n - self.pos,
        {
            proof {
                lemma_hit_records_len(self.data@.skip(self.pos as int));
                lemma_hit_records_index(self.data@.skip(self.pos as int), 0);
                assert(self.data@.skip(self.pos as int).subrange(0, 16) =~= self.data@
                    .subrange(self.pos as int, self.pos + 16));
                assert(self.data@.skip(self.pos as int).skip(16) =~= self.data@.skip(
                    self.pos + 16,
                ));
                assert(hit_records(self.data@.skip(self.pos as int)).drop_first()
                    =~= hit_records(self.data@.skip(self.pos + 16)));
            }
            let h = read_hit_record(self.data.as_slice(), self.pos);
            if h.col == 0 && h.row == 0 && h.toa == 0 && h.tot == 0 {
                break ;
            }
            cur.push(h);
            self.pos = self.pos + 16;
        }
        if n >= 16 && self.pos <= n - 16 {
            // on the terminator
            proof {
                lemma_hit_records_len(self.data@.skip(self.pos as int));
                lemma_hit_records_index(self.data@.skip(self.pos as int), 0);
                assert(self.data@.skip(self.pos as int).skip(16) =~= self.data@.skip(
                    self.pos + 16,
                ));
                assert(hit_records(self.data@.skip(self.pos as int)).drop_first()
                    =~= hit_records(self.data@.skip(self.pos + 16)));
            }
            let ghost pre = self.emitted@;
            let ghost curv = cur@;
            proof {
                let recs = hit_records(self.data@.skip(self.pos as int));
                assert(split_clusters_from(recs, curv) =~= seq![curv] + split_clusters_from(
                    recs.drop_first(),
                    Seq::empty(),
                ));
                self.emitted@ = pre.push(curv);
                assert(pre.push(curv) =~= pre + seq![curv]);
            }
            self.pos = self.pos + 16;
            proof {
                assert(self.emitted@ + split_clusters_from(
                    hit_records(self.data@.skip(self.pos as int)),
                    Seq::<Hit>::empty(),
                ) =~= split_clusters(hit_records(self.data@)));
                let all = split_clusters(hit_records(self.data@));
                assert(all[pre.len() as int] =~= curv);
            }
            Some(cur)
        } else {
            // end of stream: an unterminated group encodes nothing
            proof {
                let recs = hit_records(self.data@.skip(self.pos as int));
                lemma_hit_records_len(self.data@.skip(self.pos as int));
                assert(recs.len() == 0);
                assert(split_clusters_from(recs, cur@) =~= Seq::<Seq<Hit>>::empty());
                assert(self.emitted@ + Seq::<Seq<Hit>>::empty() =~= self.emitted@);
            }
            None
        }
    }
}

} // verus!
