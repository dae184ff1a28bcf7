//! Decimal text: the CSV sidecar formats and human-readable numbers.
//!
//! Trigger lists travel as two-column CSV (`event,time`); cluster sidecars
//! as six columns with the window times rendered in nanoseconds. Times of
//! arrival are ticks of 25/16 ns, so every nanosecond value has an exact
//! decimal expansion with at most four fraction digits, and the encoders
//! write it exactly.

use vstd::prelude::*;

use vstd::string::StringSliceAdditionalSpecFns;

use crate::{ClusterMetadata, Trigger};

verus! {

/// Failures when reading CSV text.
#[derive(Clone, Copy, Debug, PartialEq, Eq, Structural)]
pub enum CsvError {
    /// The header row is not the one this format writes.
    MalformedHeader,
    /// A data row is not two decimal fields, or a value overflows.
    MalformedRow,
}

// ---------------------------------------------------------------------------
// Decimal digits.
// ---------------------------------------------------------------------------

/// The shortest decimal digit string of `n` (most significant first).
pub open spec fn dec_digits(n: u64) -> Seq<u8>
    decreases n,
{
    if n < 10 {
        seq![(48 + n) as u8]
    } else {
        dec_digits(n / 10).push((48 + n % 10) as u8)
    }
}

/// Writes `n` in decimal.
pub fn push_dec_u64(out: &mut Vec<u8>, n: u64)
    ensures
        final(out)@ =~= old(out)@ + dec_digits(n),
    decreases n,
{
    if n < 10 {
        out.push((48 + n) as u8);
    } else {
        push_dec_u64(out, n / 10);
        out.push((48 + n % 10) as u8);
    }
}

/// The value of a decimal digit string, most significant first.
pub open spec fn dec_val(s: Seq<u8>) -> int
    decreases s.len(),
{
    if s.len() == 0 {
        0
    } else {
        dec_val(s.drop_last()) * 10 + (s.last() - 48)
    }
}

/// A non-empty, all-digit string.
pub open spec fn is_dec_digits(s: Seq<u8>) -> bool {
    s.len() >= 1 && forall|i: int| 0 <= i < s.len() ==> 48 <= #[trigger] s[i] <= 57
}

/// Law: a value's digit string is canonical — non-empty digits, no leading
/// zero unless the value is zero — and reads back to the value.
pub proof fn lemma_dec_round_trip(n: u64)
    ensures
        is_dec_digits(dec_digits(n)),
        dec_val(dec_digits(n)) == n,
        n >= 10 ==> dec_digits(n)[0] != 48,
        n < 10 ==> dec_digits(n).len() == 1,
    decreases n,
{
    reveal_with_fuel(dec_val, 2);
    if n < 10 {
        assert(dec_digits(n).drop_last() =~= Seq::<u8>::empty());
    } else {
        lemma_dec_round_trip(n / 10);
        assert(dec_digits(n).drop_last() =~= dec_digits(n / 10));
        assert(dec_digits(n)[0] == dec_digits(n / 10)[0]);
    }
}

/// Parses a whole decimal field. Accepts exactly what `dec_digits` writes
/// plus redundant leading zeros; rejects an empty field, a non-digit, or a
/// value beyond `u64`.
pub fn parse_dec_u64(s: &[u8]) -> (r: Option<u64>)
    ensures
        r matches Some(v) ==> (is_dec_digits(s@) && dec_val(s@) == v),
        r is None ==> (!is_dec_digits(s@) || dec_val(s@) > u64::MAX),
{
    let n = s.len();
    if n == 0 {
        return None;
    }
    let mut acc: u64 = 0;
    for i in 0..n
        invariant
            n == s@.len(),
            forall|k: int| 0 <= k < i ==> 48 <= #[trigger] s@[k] <= 57,
            acc == dec_val(s@.take(i as int)),
    {
        let c = s[i];
        if c < 48 || c > 57 {
            return None;
        }
        proof {
            assert(s@.take(i + 1).drop_last() =~= s@.take(i as int));
            assert(s@.take(i + 1).last() == s@[i as int]);
        }
        let next = match acc.checked_mul(10) {
            Some(x) => x.checked_add((c - 48) as u64),
            None => None,
        };
        match next {
            Some(x) => {
                acc = x;
            },
            None => {
                proof {
                    if is_dec_digits(s@) {
                        lemma_dec_val_mono(s@.take(i + 1), s@);
                    }
                }
                return None;
            },
        }
    }
    proof {
        assert(s@.take(n as int) =~= s@);
    }
    Some(acc)
}

/// A digit string's value only grows as it is extended by digits.
proof fn lemma_dec_val_mono(a: Seq<u8>, b: Seq<u8>)
    requires
        a.len() <= b.len(),
        forall|i: int| 0 <= i < b.len() ==> 48 <= #[trigger] b[i],
        forall|i: int| 0 <= i < a.len() ==> a[i] == b[i],
    ensures
        dec_val(a) <= dec_val(b),
    decreases b.len(),
{
    if a.len() < b.len() {
        let b2 = b.drop_last();
        assert(forall|i: int| 0 <= i < b2.len() ==> 48 <= #[trigger] b2[i]);
        assert(forall|i: int| 0 <= i < a.len() ==> a[i] == b2[i]);
        lemma_dec_val_mono(a, b2);
        lemma_dec_val_nonneg(b2);
        assert(dec_val(b) == dec_val(b2) * 10 + (b.last() - 48));
    } else {
        assert(a =~= b);
    }
}

proof fn lemma_dec_val_nonneg(s: Seq<u8>)
    requires
        forall|i: int| 0 <= i < s.len() ==> 48 <= #[trigger] s[i],
    ensures
        dec_val(s) >= 0,
    decreases s.len(),
{
    if s.len() > 0 {
        lemma_dec_val_nonneg(s.drop_last());
    }
}

// ---------------------------------------------------------------------------
// The trigger CSV (`event,time`).
// ---------------------------------------------------------------------------

/// The bytes of the trigger CSV header row.
pub open spec fn trigger_csv_header() -> Seq<u8> {
    seq![101u8, 118u8, 101u8, 110u8, 116u8, 44u8, 116u8, 105u8, 109u8, 101u8, 10u8]
}

/// One trigger as a CSV row: `event,time` and a newline.
pub open spec fn trigger_row(t: Trigger) -> Seq<u8> {
    dec_digits(t.event as u64) + seq![44u8] + dec_digits(t.time) + seq![10u8]
}

pub open spec fn trigger_rows(ts: Seq<Trigger>) -> Seq<u8>
    decreases ts.len(),
{
    if ts.len() == 0 {
        Seq::empty()
    } else {
        trigger_row(ts[0]) + trigger_rows(ts.drop_first())
    }
}

/// The whole trigger CSV: header then one row per trigger.
pub open spec fn triggers_csv(ts: Seq<Trigger>) -> Seq<u8> {
    trigger_csv_header() + trigger_rows(ts)
}

proof fn lemma_trigger_rows_push(ts: Seq<Trigger>, t: Trigger)
    ensures
        trigger_rows(ts.push(t)) =~= trigger_rows(ts) + trigger_row(t),
    decreases ts.len(),
{
    reveal_with_fuel(trigger_rows, 3);
    if ts.len() == 0 {
        assert(ts.push(t).drop_first() =~= Seq::<Trigger>::empty());
        assert(ts.push(t)[0] == t);
    } else {
        assert(ts.push(t)[0] == ts[0]);
        assert(ts.push(t).drop_first() =~= ts.drop_first().push(t));
        lemma_trigger_rows_push(ts.drop_first(), t);
    }
}

/// Encodes a trigger list as CSV, appended to `file`.
pub fn write_triggers_to_csv(file: &mut Vec<u8>, triggers: &Vec<Trigger>)
    ensures
        final(file)@ =~= old(file)@ + triggers_csv(triggers@),
{
    file.push(101);
    file.push(118);
    file.push(101);
    file.push(110);
    file.push(116);
    file.push(44);
    file.push(116);
    file.push(105);
    file.push(109);
    file.push(101);
    file.push(10);
    proof {
        assert(file@ =~= old(file)@ + trigger_csv_header());
    }
    let n = triggers.len();
    for i in 0..n
        invariant
            n == triggers@.len(),
            file@ =~= old(file)@ + trigger_csv_header() + trigger_rows(triggers@.take(i as int)),
    {
        let t = triggers[i];
        push_dec_u64(file, t.event as u64);
        file.push(44);
        push_dec_u64(file, t.time);
        file.push(10);
        proof {
            assert(triggers@.take(i + 1) =~= triggers@.take(i as int).push(triggers@[i as int]));
            lemma_trigger_rows_push(triggers@.take(i as int), triggers@[i as int]);
            assert(file@ =~= old(file)@ + trigger_csv_header() + trigger_rows(triggers@.take(i
                + 1)));
        }
    }
    proof {
        assert(triggers@.take(n as int) =~= triggers@);
    }
}

/// A row is never empty, so an empty byte string encodes only the empty
/// trigger list.
proof fn lemma_trigger_row_shape(t: Trigger)
    ensures
        trigger_row(t).len() >= 4,
        trigger_row(t) =~= dec_digits(t.event as u64) + seq![44u8] + dec_digits(t.time)
            + seq![10u8],
        is_dec_digits(dec_digits(t.event as u64)),
        is_dec_digits(dec_digits(t.time)),
        dec_val(dec_digits(t.event as u64)) == t.event,
        dec_val(dec_digits(t.time)) == t.time,
{
    lemma_dec_round_trip(t.event as u64);
    lemma_dec_round_trip(t.time);
}

/// Decodes a trigger CSV. Exactly the canonical form this module writes is
/// accepted: the parse succeeds precisely on encoder outputs, and whatever
/// comes back re-encodes to the input bytes, so an `Ok` answer names the
/// one trigger list the file means.
#[verifier::rlimit(100)]
pub fn read_trigger_data(data: &[u8]) -> (r: Result<Vec<Trigger>, CsvError>)
    ensures
        r matches Ok(v) ==> data@ =~= triggers_csv(v@),
        (exists|ts: Seq<Trigger>| data@ =~= triggers_csv(ts)) ==> r is Ok,
{
    let ghost canonical = exists|ts: Seq<Trigger>| data@ =~= triggers_csv(ts);
    let ghost w_ts: Seq<Trigger> = if canonical {
        choose|ts: Seq<Trigger>| data@ =~= triggers_csv(ts)
    } else {
        Seq::empty()
    };
    let n = data.len();
    if n < 11 {
        proof {
            if canonical {
                assert(data@.len() >= trigger_csv_header().len());
            }
        }
        return Err(CsvError::MalformedHeader);
    }
    if data[0] != 101 || data[1] != 118 || data[2] != 101 || data[3] != 110 || data[4] != 116
        || data[5] != 44 || data[6] != 116 || data[7] != 105 || data[8] != 109 || data[9] != 101
        || data[10] != 10 {
        proof {
            if canonical {
                assert(forall|i: int| 0 <= i < 11 ==> data@[i] == trigger_csv_header()[i]);
            }
        }
        return Err(CsvError::MalformedHeader);
    }
    proof {
        assert(data@.take(11) =~= trigger_csv_header());
    }
    let mut triggers: Vec<Trigger> = Vec::new();
    let mut pos: usize = 11;
    let ghost mut done: int = 0;
    proof {
        if canonical {
            assert(data@.skip(11) =~= trigger_rows(w_ts));
            assert(w_ts.skip(0) =~= w_ts);
            assert(w_ts.take(0) =~= triggers@);
        }
    }
    while pos < n
        invariant
            n == data@.len(),
            11 <= pos <= n,
            data@.take(11) =~= trigger_csv_header(),
            data@.take(pos as int) =~= trigger_csv_header() + trigger_rows(triggers@),
            canonical == (exists|ts: Seq<Trigger>| data@ =~= triggers_csv(ts)),
            canonical ==> (0 <= done <= w_ts.len() && triggers@ =~= w_ts.take(done)
                && data@.skip(pos as int) =~= trigger_rows(w_ts.skip(done))),
        decreases n - pos,
    {
        let ghost row_t = if canonical && done < w_ts.len() {
            w_ts[done]
        } else {
            Trigger { event: 0, time: 0 }
        };
        proof {
            if canonical {
                if done == w_ts.len() {
                    assert(w_ts.skip(done) =~= Seq::<Trigger>::empty());
                    assert(trigger_rows(w_ts.skip(done)).len() == 0);
                    assert(data@.skip(pos as int).len() > 0);
                }
                assert(done < w_ts.len());
                assert(w_ts.skip(done)[0] == row_t);
                lemma_trigger_row_shape(row_t);
                assert(trigger_rows(w_ts.skip(done)) == trigger_row(row_t) + trigger_rows(
                    w_ts.skip(done).drop_first(),
                ));
                assert(w_ts.skip(done).drop_first() =~= w_ts.skip(done + 1));
            }
        }
        let ghost de = dec_digits(row_t.event as u64);
        let ghost dt = dec_digits(row_t.time);
        // the event field, up to a comma
        let mut comma: usize = pos;
        while comma < n && data[comma] != 44
            invariant
                pos <= comma <= n,
                n == data@.len(),
                forall|i: int| pos <= i < comma ==> data@[i] != 44,
            decreases n - comma,
        {
            comma = comma + 1;
        }
        proof {
            if canonical {
                assert forall|j: int| 0 <= j < trigger_row(row_t).len() implies data@[pos + j]
                    == trigger_row(row_t)[j] by {
                    assert(data@.skip(pos as int)[j] == data@[pos + j]);
                }
                assert(trigger_row(row_t)[de.len() as int] == 44);
                assert(data@[pos + de.len()] == trigger_row(row_t)[de.len() as int]);
                assert(comma <= pos + de.len());
                if comma < pos + de.len() {
                    assert(trigger_row(row_t)[comma - pos] == de[comma - pos]);
                    assert(data@[comma as int] == trigger_row(row_t)[comma - pos]);
                    assert(48 <= de[comma - pos] <= 57);
                }
                assert(comma == pos + de.len());
            }
        }
        if comma >= n {
            proof {
                if canonical {
                    assert(pos + trigger_row(row_t).len() <= n);
                }
            }
            return Err(CsvError::MalformedRow);
        }
        // the time field, up to a newline
        let mut nl: usize = comma + 1;
        while nl < n && data[nl] != 10
            invariant
                comma < nl <= n,
                n == data@.len(),
                forall|i: int| comma + 1 <= i < nl ==> data@[i] != 10,
            decreases n - nl,
        {
            nl = nl + 1;
        }
        proof {
            if canonical {
                assert(trigger_row(row_t)[de.len() as int + 1 + dt.len() as int] == 10);
                assert(data@[pos + de.len() + 1 + dt.len()] == trigger_row(row_t)[de.len() as int
                    + 1 + dt.len() as int]);
                assert(nl <= pos + de.len() + 1 + dt.len());
                if nl < pos + de.len() + 1 + dt.len() {
                    assert(trigger_row(row_t)[nl - pos] == dt[nl - (pos + de.len() + 1)]);
                    assert(data@[nl as int] == trigger_row(row_t)[nl - pos]);
                    assert(48 <= dt[nl - (pos + de.len() + 1)] <= 57);
                }
                assert(nl == pos + de.len() + 1 + dt.len());
            }
        }
        if nl >= n {
            proof {
                if canonical {
                    assert(pos + trigger_row(row_t).len() <= n);
                }
            }
            return Err(CsvError::MalformedRow);
        }
        let event_field = slice_range(data, pos, comma);
        proof {
            if canonical {
                assert(event_field@ =~= de);
            }
        }
        let event = match parse_dec_u64(event_field) {
            Some(v) => v,
            None => {
                proof {
                    if canonical {
                        assert(dec_val(de) == row_t.event as u64);
                    }
                }
                return Err(CsvError::MalformedRow);
            },
        };
        let time_field = slice_range(data, comma + 1, nl);
        proof {
            if canonical {
                assert forall|j: int| 0 <= j < dt.len() implies time_field@[j] == dt[j] by {
                    assert(trigger_row(row_t)[de.len() as int + 1 + j] == dt[j]);
                    assert(data@[pos + de.len() + 1 + j] == trigger_row(row_t)[de.len() as int
                        + 1 + j]);
                }
                assert(time_field@ =~= dt);
            }
        }
        let time = match parse_dec_u64(time_field) {
            Some(v) => v,
            None => {
                proof {
                    if canonical {
                        assert(dec_val(dt) == row_t.time);
                    }
                }
                return Err(CsvError::MalformedRow);
            },
        };
        if event > u32::MAX as u64 {
            proof {
                if canonical {
                    assert(event == row_t.event as u64);
                }
            }
            return Err(CsvError::MalformedRow);
        }
        let t = Trigger { event: event as u32, time };
        // accept only the canonical spelling of this row
        let mut canonical_row: Vec<u8> = Vec::new();
        push_dec_u64(&mut canonical_row, event);
        canonical_row.push(44);
        push_dec_u64(&mut canonical_row, time);
        canonical_row.push(10);
        proof {
            if canonical {
                assert(t == row_t);
                assert(canonical_row@ =~= trigger_row(row_t));
            }
        }
        let row_len = nl + 1 - pos;
        if canonical_row.len() != row_len {
            proof {
                if canonical {
                    assert(canonical_row@.len() == trigger_row(row_t).len());
                }
            }
            return Err(CsvError::MalformedRow);
        }
        let mut same = true;
        for i in 0..row_len
            invariant
                row_len == canonical_row@.len(),
                pos + row_len <= n,
                n == data@.len(),
                same <==> (forall|k: int| 0 <= k < i ==> data@[pos + k] == canonical_row@[k]),
        {
            if data[pos + i] != canonical_row[i] {
                same = false;
            }
        }
        if !same {
            proof {
                if canonical {
                    assert(forall|k: int| 0 <= k < row_len ==> data@[pos + k]
                        == trigger_row(row_t)[k]);
                }
            }
            return Err(CsvError::MalformedRow);
        }
        let ghost old_triggers = triggers@;
        triggers.push(t);
        proof {
            assert(canonical_row@ =~= trigger_row(t));
            lemma_trigger_rows_push(old_triggers, t);
            assert(data@.take(nl + 1) =~= data@.take(pos as int) + canonical_row@);
            assert(data@.take(nl + 1) =~= trigger_csv_header() + trigger_rows(triggers@));
            if canonical {
                assert(trigger_row(row_t).len() == row_len);
                assert(data@.skip(nl + 1) =~= data@.skip(pos as int).skip(row_len as int));
                assert(data@.skip(pos as int).skip(row_len as int) =~= trigger_rows(
                    w_ts.skip(done + 1),
                ));
                assert(triggers@ =~= w_ts.take(done + 1));
                done = done + 1;
            }
        }
        pos = nl + 1;
    }
    proof {
        assert(data@.take(n as int) =~= data@);
    }
    Ok(triggers)
}

/// The byte subslice `[lo, hi)`.
fn slice_range(data: &[u8], lo: usize, hi: usize) -> (r: &[u8])
    requires
        lo <= hi <= data@.len(),
    ensures
        r@ =~= data@.subrange(lo as int, hi as int),
{
    &data[lo..hi]
}

// ---------------------------------------------------------------------------
// The cluster sidecar CSV (`event,time,duration,hits,sum_tot,offset`).
// ---------------------------------------------------------------------------

/// The bytes of the sidecar CSV header row.
pub open spec fn metadata_csv_header() -> Seq<u8> {
    seq![
        101u8, 118u8, 101u8, 110u8, 116u8, 44u8, 116u8, 105u8, 109u8, 101u8, 44u8, 100u8,
        117u8, 114u8, 97u8, 116u8, 105u8, 111u8, 110u8, 44u8, 104u8, 105u8, 116u8, 115u8,
        44u8, 115u8, 117u8, 109u8, 95u8, 116u8, 111u8, 116u8, 44u8, 111u8, 102u8, 102u8,
        115u8, 101u8, 116u8, 10u8,
    ]
}

/// The exact decimal fraction digits of `k` sixteenths, point included;
/// empty for zero.
pub open spec fn sixteenths_digits(k: int) -> Seq<u8> {
    if k == 1 {
        seq![46u8, 48u8, 54u8, 50u8, 53u8]
    } else if k == 2 {
        seq![46u8, 49u8, 50u8, 53u8]
    } else if k == 3 {
        seq![46u8, 49u8, 56u8, 55u8, 53u8]
    } else if k == 4 {
        seq![46u8, 50u8, 53u8]
    } else if k == 5 {
        seq![46u8, 51u8, 49u8, 50u8, 53u8]
    } else if k == 6 {
        seq![46u8, 51u8, 55u8, 53u8]
    } else if k == 7 {
        seq![46u8, 52u8, 51u8, 55u8, 53u8]
    } else if k == 8 {
        seq![46u8, 53u8]
    } else if k == 9 {
        seq![46u8, 53u8, 54u8, 50u8, 53u8]
    } else if k == 10 {
        seq![46u8, 54u8, 50u8, 53u8]
    } else if k == 11 {
        seq![46u8, 54u8, 56u8, 55u8, 53u8]
    } else if k == 12 {
        seq![46u8, 55u8, 53u8]
    } else if k == 13 {
        seq![46u8, 56u8, 49u8, 50u8, 53u8]
    } else if k == 14 {
        seq![46u8, 56u8, 55u8, 53u8]
    } else if k == 15 {
        seq![46u8, 57u8, 51u8, 55u8, 53u8]
    } else {
        Seq::empty()
    }
}

/// A time-of-arrival span in nanoseconds, exactly: `ticks * 25 / 16` with
/// its fractional sixteenths spelled out in full.
pub open spec fn ticks_ns_digits(ticks: u64) -> Seq<u8> {
    let total = ticks * 25;
    dec_digits((total / 16) as u64) + sixteenths_digits(total % 16)
}

/// Writes a tick count as exact nanoseconds.
pub fn push_ticks_ns(out: &mut Vec<u8>, ticks: u64)
    requires
        ticks <= u64::MAX / 25,
    ensures
        final(out)@ =~= old(out)@ + ticks_ns_digits(ticks),
{
    let total = ticks * 25;
    push_dec_u64(out, total / 16);
    let k = total % 16;
    if k == 0 {
        return ;
    }
    out.push(46);
    if k == 1 {
        out.push(48);
        out.push(54);
        out.push(50);
        out.push(53);
    } else if k == 2 {
        out.push(49);
        out.push(50);
        out.push(53);
    } else if k == 3 {
        out.push(49);
        out.push(56);
        out.push(55);
        out.push(53);
    } else if k == 4 {
        out.push(50);
        out.push(53);
    } else if k == 5 {
        out.push(51);
        out.push(49);
        out.push(50);
        out.push(53);
    } else if k == 6 {
        out.push(51);
        out.push(55);
        out.push(53);
    } else if k == 7 {
        out.push(52);
        out.push(51);
        out.push(55);
        out.push(53);
    } else if k == 8 {
        out.push(53);
    } else if k == 9 {
        out.push(53);
        out.push(54);
        out.push(50);
        out.push(53);
    } else if k == 10 {
        out.push(54);
        out.push(50);
        out.push(53);
    } else if k == 11 {
        out.push(54);
        out.push(56);
        out.push(55);
        out.push(53);
    } else if k == 12 {
        out.push(55);
        out.push(53);
    } else if k == 13 {
        out.push(56);
        out.push(49);
        out.push(50);
        out.push(53);
    } else if k == 14 {
        out.push(56);
        out.push(55);
        out.push(53);
    } else {
        out.push(57);
        out.push(51);
        out.push(55);
        out.push(53);
    }
}

/// One sidecar row: times in exact nanoseconds, the rest plain decimal.
pub open spec fn metadata_row(m: ClusterMetadata) -> Seq<u8> {
    dec_digits(m.event as u64) + seq![44u8] + ticks_ns_digits(m.time) + seq![44u8]
        + ticks_ns_digits(m.duration) + seq![44u8] + dec_digits(m.hits as u64) + seq![44u8]
        + dec_digits(m.sum_tot) + seq![44u8] + dec_digits(m.offset as u64) + seq![10u8]
}

pub open spec fn metadata_rows(ms: Seq<ClusterMetadata>) -> Seq<u8>
    decreases ms.len(),
{
    if ms.len() == 0 {
        Seq::empty()
    } else {
        metadata_row(ms[0]) + metadata_rows(ms.drop_first())
    }
}

/// The whole sidecar CSV: header then one row per cluster.
pub open spec fn metadata_csv(ms: Seq<ClusterMetadata>) -> Seq<u8> {
    metadata_csv_header() + metadata_rows(ms)
}

proof fn lemma_metadata_rows_push(ms: Seq<ClusterMetadata>, m: ClusterMetadata)
    ensures
        metadata_rows(ms.push(m)) =~= metadata_rows(ms) + metadata_row(m),
    decreases ms.len(),
{
    reveal_with_fuel(metadata_rows, 3);
    if ms.len() == 0 {
        assert(ms.push(m).drop_first() =~= Seq::<ClusterMetadata>::empty());
        assert(ms.push(m)[0] == m);
    } else {
        assert(ms.push(m)[0] == ms[0]);
        assert(ms.push(m).drop_first() =~= ms.drop_first().push(m));
        lemma_metadata_rows_push(ms.drop_first(), m);
    }
}

/// Encodes the sidecar rows as CSV, appended to `file`.
#[verifier::rlimit(50)]
pub fn write_metadata_csv(file: &mut Vec<u8>, rows: &Vec<ClusterMetadata>)
    requires
        forall|i: int| 0 <= i < rows@.len() ==> (#[trigger] rows@[i]).time <= u64::MAX / 25,
        forall|i: int| 0 <= i < rows@.len() ==> (#[trigger] rows@[i]).duration <= u64::MAX / 25,
    ensures
        final(file)@ =~= old(file)@ + metadata_csv(rows@),
{
    let header: [u8; 40] = [101, 118, 101, 110, 116, 44, 116, 105, 109, 101, 44, 100, 117, 114,
        97, 116, 105, 111, 110, 44, 104, 105, 116, 115, 44, 115, 117, 109, 95, 116, 111, 116,
        44, 111, 102, 102, 115, 101, 116, 10];
    let mut h: usize = 0;
    while h < 40
        invariant
            0 <= h <= 40,
            header@ =~= metadata_csv_header(),
            file@ =~= old(file)@ + metadata_csv_header().take(h as int),
        decreases 40 - h,
    {
        file.push(header[h]);
        proof {
            assert(metadata_csv_header().take(h + 1) =~= metadata_csv_header().take(
                h as int,
            ).push(metadata_csv_header()[h as int]));
        }
        h = h + 1;
    }
    proof {
        assert(metadata_csv_header().take(40) =~= metadata_csv_header());
    }
    let n = rows.len();
    for i in 0..n
        invariant
            n == rows@.len(),
            forall|k: int| 0 <= k < rows@.len() ==> (#[trigger] rows@[k]).time <= u64::MAX / 25,
            forall|k: int| 0 <= k < rows@.len() ==> (#[trigger] rows@[k]).duration <= u64::MAX
                / 25,
            file@ =~= old(file)@ + metadata_csv_header() + metadata_rows(rows@.take(i as int)),
    {
        let m = rows[i];
        push_metadata_row(file, &m);
        proof {
            assert(rows@.take(i + 1) =~= rows@.take(i as int).push(rows@[i as int]));
            lemma_metadata_rows_push(rows@.take(i as int), rows@[i as int]);
            assert(file@ =~= old(file)@ + metadata_csv_header() + metadata_rows(rows@.take(i
                + 1)));
        }
    }
    proof {
        assert(rows@.take(n as int) =~= rows@);
    }
}

/// Appends one sidecar row.
fn push_metadata_row(file: &mut Vec<u8>, m: &ClusterMetadata)
    requires
        m.time <= u64::MAX / 25,
        m.duration <= u64::MAX / 25,
    ensures
        final(file)@ =~= old(file)@ + metadata_row(*m),
{
    push_dec_u64(file, m.event as u64);
    file.push(44);
    push_ticks_ns(file, m.time);
    file.push(44);
    push_ticks_ns(file, m.duration);
    file.push(44);
    push_dec_u64(file, m.hits as u64);
    file.push(44);
    push_dec_u64(file, m.sum_tot);
    file.push(44);
    push_dec_u64(file, m.offset as u64);
    file.push(10);
}

// ---------------------------------------------------------------------------
// Reading the event column back out of a sidecar CSV.
// ---------------------------------------------------------------------------

/// Splits a byte string at each separator; the final, unterminated piece is
/// included, so the result is never empty.
pub open spec fn split_bytes_from(d: Seq<u8>, sep: u8, cur: Seq<u8>) -> Seq<Seq<u8>>
    decreases d.len(),
{
    if d.len() == 0 {
        seq![cur]
    } else if d[0] == sep {
        seq![cur] + split_bytes_from(d.drop_first(), sep, Seq::empty())
    } else {
        split_bytes_from(d.drop_first(), sep, cur.push(d[0]))
    }
}

pub open spec fn split_bytes(d: Seq<u8>, sep: u8) -> Seq<Seq<u8>> {
    split_bytes_from(d, sep, Seq::empty())
}

/// The leading decimal field of a CSV line: its bytes up to the first comma.
pub open spec fn leading_field(line: Seq<u8>) -> Seq<u8> {
    split_bytes(line, 44)[0]
}

/// Splits a byte string at every `sep`.
pub fn split_at_byte(d: &[u8], sep: u8) -> (r: Vec<Vec<u8>>)
    ensures
        clusters_of_bytes(r@) =~= split_bytes(d@, sep),
{
    let n = d.len();
    let mut out: Vec<Vec<u8>> = Vec::new();
    let mut cur: Vec<u8> = Vec::new();
    let mut i: usize = 0;
    proof {
        assert(d@.skip(0) =~= d@);
    }
    while i < n
        invariant
            n == d@.len(),
            0 <= i <= n,
            clusters_of_bytes(out@) + split_bytes_from(d@.skip(i as int), sep, cur@)
                =~= split_bytes(d@, sep),
        decreases n - i,
    {
        proof {
            assert(d@.skip(i as int)[0] == d@[i as int]);
            assert(d@.skip(i as int).drop_first() =~= d@.skip(i + 1));
        }
        if d[i] == sep {
            let ghost pre = clusters_of_bytes(out@);
            let ghost curv = cur@;
            out.push(cur);
            cur = Vec::new();
            proof {
                assert(clusters_of_bytes(out@) =~= pre.push(curv));
            }
        } else {
            cur.push(d[i]);
        }
        i = i + 1;
    }
    let ghost pre = clusters_of_bytes(out@);
    let ghost curv = cur@;
    out.push(cur);
    proof {
        assert(d@.skip(n as int) =~= Seq::<u8>::empty());
        assert(clusters_of_bytes(out@) =~= pre.push(curv));
        assert(pre.push(curv) =~= pre + seq![curv]);
    }
    out
}

/// The sequence-of-byte-strings view of split output.
pub open spec fn clusters_of_bytes(v: Seq<Vec<u8>>) -> Seq<Seq<u8>> {
    v.map_values(|x: Vec<u8>| x@)
}

/// Reads the `event` column of a sidecar CSV: one value per data row (the
/// header line and the file's trailing piece are skipped), each the decimal
/// value of the bytes before the row's first comma. It succeeds exactly
/// when the file has a header line and every data row's leading field is a
/// decimal number that fits; the encoder's own output always qualifies.
pub fn read_cluster_metadata_events(data: &[u8]) -> (r: Result<Vec<u64>, CsvError>)
    ensures
        ({
            let lines = split_bytes(data@, 10);
            &&& (r is Ok <==> (lines.len() >= 2 && forall|i: int| 1 <= i < lines.len() - 1
                ==> (is_dec_digits(leading_field(#[trigger] lines[i])) && dec_val(
                leading_field(lines[i]),
            ) <= u64::MAX)))
            &&& (r matches Ok(v) ==> v@.len() == lines.len() - 2)
            &&& (r matches Ok(v) ==> forall|i: int| 0 <= i < v@.len() ==> (is_dec_digits(
                leading_field(#[trigger] lines[i + 1]),
            ) && v@[i] == dec_val(leading_field(lines[i + 1]))))
        }),
{
    let lines = split_at_byte(data, 10);
    let n_lines = lines.len();
    proof {
        assert(clusters_of_bytes(lines@).len() == lines@.len());
    }
    if n_lines < 2 {
        return Err(CsvError::MalformedHeader);
    }
    let mut events: Vec<u64> = Vec::new();
    let mut i: usize = 1;
    while i < n_lines - 1
        invariant
            n_lines == lines@.len(),
            n_lines >= 2,
            clusters_of_bytes(lines@) =~= split_bytes(data@, 10),
            1 <= i <= n_lines - 1,
            events@.len() == i - 1,
            forall|k: int| 0 <= k < events@.len() ==> (is_dec_digits(leading_field(
                #[trigger] split_bytes(data@, 10)[k + 1],
            )) && events@[k] == dec_val(leading_field(split_bytes(data@, 10)[k + 1]))),
        decreases n_lines - i,
    {
        let fields = split_at_byte(lines[i].as_slice(), 44);
        proof {
            lemma_split_from_len(lines@[i as int]@, 44, Seq::empty());
            assert(clusters_of_bytes(fields@).len() == fields@.len());
            assert(clusters_of_bytes(fields@)[0] == fields@[0]@);
            assert(clusters_of_bytes(lines@)[i as int] == lines@[i as int]@);
        }
        let v = match parse_dec_u64(fields[0].as_slice()) {
            Some(v) => v,
            None => {
                proof {
                    assert(!(is_dec_digits(leading_field(split_bytes(data@, 10)[i as int]))
                        && dec_val(leading_field(split_bytes(data@, 10)[i as int]))
                        <= u64::MAX));
                }
                return Err(CsvError::MalformedRow);
            },
        };
        events.push(v);
        i = i + 1;
    }
    proof {
        assert forall|k: int| 1 <= k < split_bytes(data@, 10).len() - 1 implies (is_dec_digits(
            leading_field(#[trigger] split_bytes(data@, 10)[k]),
        ) && dec_val(leading_field(split_bytes(data@, 10)[k])) <= u64::MAX) by {
            assert(events@[k - 1] == dec_val(leading_field(split_bytes(data@, 10)[(k - 1)
                + 1])));
        }
    }
    Ok(events)
}

// ---------------------------------------------------------------------------
// Human-readable numbers.
// ---------------------------------------------------------------------------

/// The scale named by a suffix letter, if any.
pub open spec fn suffix_multiplier(c: u8) -> Option<int> {
    if c == 107 || c == 75 {
        Some(1000int)
    } else if c == 109 || c == 77 {
        Some(1000000int)
    } else if c == 98 || c == 66 {
        Some(1000000000int)
    } else {
        None
    }
}

/// The value of a human-readable number: plain decimal digits, or digits
/// with an optional decimal fraction scaled by a `k`/`m`/`b` suffix
/// (thousand, million, billion), truncated to an integer.
pub open spec fn human_readable_value(s: Seq<u8>) -> Option<int> {
    if s.len() == 0 {
        None
    } else if 48 <= s.last() <= 57 {
        if is_dec_digits(s) {
            Some(dec_val(s))
        } else {
            None
        }
    } else {
        match suffix_multiplier(s.last()) {
            None => None,
            Some(mult) => {
                let body = s.drop_last();
                let pieces = split_bytes(body, 46);
                if pieces.len() == 1 && is_dec_digits(body) {
                    Some(dec_val(body) * mult)
                } else if pieces.len() == 2 && is_dec_digits(pieces[0]) && is_dec_digits(
                    pieces[1],
                ) && dec_val(pieces[1]) <= u64::MAX {
                    Some(
                        dec_val(pieces[0]) * mult + dec_val(pieces[1]) * mult / pow10(
                            pieces[1].len() as int,
                        ),
                    )
                } else {
                    None
                }
            },
        }
    }
}

pub open spec fn pow10(n: int) -> int
    decreases n,
{
    if n <= 0 {
        1
    } else {
        10 * pow10(n - 1)
    }
}

/// No separator means a single piece: the input itself.
proof fn lemma_split_nosep(d: Seq<u8>, sep: u8, cur: Seq<u8>)
    requires
        forall|i: int| 0 <= i < d.len() ==> d[i] != sep,
    ensures
        split_bytes_from(d, sep, cur) =~= seq![cur + d],
    decreases d.len(),
{
    if d.len() == 0 {
        assert(cur + d =~= cur);
    } else {
        lemma_split_nosep(d.drop_first(), sep, cur.push(d[0]));
        assert(cur.push(d[0]) + d.drop_first() =~= cur + d);
    }
}

/// A separator in the input splits it into at least two pieces.
proof fn lemma_split_sep_count(d: Seq<u8>, sep: u8, cur: Seq<u8>, i: int)
    requires
        0 <= i < d.len(),
        d[i] == sep,
    ensures
        split_bytes_from(d, sep, cur).len() >= 2,
    decreases d.len(),
{
    if d[0] == sep {
        lemma_split_from_len(d.drop_first(), sep, Seq::empty());
    } else {
        lemma_split_sep_count(d.drop_first(), sep, cur.push(d[0]), i - 1);
    }
}

proof fn lemma_split_from_len(d: Seq<u8>, sep: u8, cur: Seq<u8>)
    ensures
        split_bytes_from(d, sep, cur).len() >= 1,
    decreases d.len(),
{
    if d.len() > 0 && d[0] != sep {
        lemma_split_from_len(d.drop_first(), sep, cur.push(d[0]));
    } else if d.len() > 0 {
        lemma_split_from_len(d.drop_first(), sep, Seq::empty());
    }
}

/// A single piece means the input held no separator and is that piece.
proof fn lemma_split_single(d: Seq<u8>, sep: u8)
    requires
        split_bytes(d, sep).len() == 1,
    ensures
        split_bytes(d, sep)[0] == d,
{
    if exists|i: int| 0 <= i < d.len() && d[i] == sep {
        let i = choose|i: int| 0 <= i < d.len() && d[i] == sep;
        lemma_split_sep_count(d, sep, Seq::empty(), i);
    } else {
        lemma_split_nosep(d, sep, Seq::empty());
        assert(Seq::<u8>::empty() + d =~= d);
    }
}

pub proof fn lemma_pow10_pos(n: int)
    ensures
        pow10(n) >= 1,
    decreases n,
{
    if n > 0 {
        lemma_pow10_pos(n - 1);
    }
}

proof fn lemma_pow10_mono(a: int, b: int)
    requires
        a <= b,
    ensures
        pow10(a) <= pow10(b),
    decreases b - a,
{
    lemma_pow10_pos(a);
    if a < b {
        lemma_pow10_mono(a, b - 1);
        lemma_pow10_pos(b - 1);
    }
}

/// Parses a number with an optional scale suffix: `k`/`K` for a thousand,
/// `m`/`M` for a million, `b`/`B` for a billion. With a suffix, a decimal
/// fraction is accepted and the scaled value is truncated to an integer.
/// Returns nothing for an empty or malformed string or a value beyond
/// `u64`.
pub fn parse_human_readable_number(string: &str) -> (r: Option<u64>)
    ensures
        r matches Some(v) ==> (human_readable_value(string.spec_bytes()) matches Some(x) && x
            == v),
        r is None ==> !(human_readable_value(string.spec_bytes()) matches Some(x) && 0 <= x
            <= u64::MAX),
{
    let s = string.as_bytes();
    let n = s.len();
    if n == 0 {
        return None;
    }
    let last = s[n - 1];
    proof {
        assert(s@.last() == s@[n - 1]);
    }
    if 48 <= last && last <= 57 {
        let r = parse_dec_u64(s);
        proof {
            if r is None && is_dec_digits(s@) {
                lemma_dec_val_nonneg(s@);
            }
        }
        return r;
    }
    let mult: u64 = if last == 107 || last == 75 {
        1000
    } else if last == 109 || last == 77 {
        1000000
    } else if last == 98 || last == 66 {
        1000000000
    } else {
        return None;
    };
    let body = slice_range(s, 0, n - 1);
    proof {
        assert(body@ =~= s@.drop_last());
    }
    let pieces = split_at_byte(body, 46);
    proof {
        assert(clusters_of_bytes(pieces@).len() == pieces@.len());
    }
    if pieces.len() == 1 {
        proof {
            assert(clusters_of_bytes(pieces@)[0] == pieces@[0]@);
            lemma_split_single(body@, 46);
        }
        let whole = match parse_dec_u64(pieces[0].as_slice()) {
            Some(v) => v,
            None => {
                proof {
                    if is_dec_digits(body@) {
                        lemma_dec_val_nonneg(body@);
                        let m = suffix_multiplier(s@.last())->0;
                        assert(dec_val(body@) * m > u64::MAX * 1) by (nonlinear_arith)
                            requires
                                dec_val(body@) > u64::MAX,
                                m >= 1,
                        ;
                    }
                }
                return None;
            },
        };
        return match whole.checked_mul(mult) {
            Some(v) => Some(v),
            None => None,
        };
    }
    if pieces.len() != 2 {
        return None;
    }
    proof {
        assert(clusters_of_bytes(pieces@)[0] == pieces@[0]@);
        assert(clusters_of_bytes(pieces@)[1] == pieces@[1]@);
    }
    let ghost p0 = split_bytes(body@, 46)[0];
    let ghost p1 = split_bytes(body@, 46)[1];
    let ghost m_spec = suffix_multiplier(s@.last())->0;
    let whole = match parse_dec_u64(pieces[0].as_slice()) {
        Some(v) => v,
        None => {
            proof {
                if is_dec_digits(p0) {
                    lemma_dec_val_nonneg(p0);
                    if is_dec_digits(p1) {
                        lemma_dec_val_nonneg(p1);
                        lemma_pow10_pos(p1.len() as int);
                        vstd::arithmetic::div_mod::lemma_div_pos_is_pos(
                            dec_val(p1) * m_spec,
                            pow10(p1.len() as int),
                        );
                        assert(dec_val(p1) * m_spec >= 0) by (nonlinear_arith)
                            requires
                                dec_val(p1) >= 0,
                                m_spec >= 1,
                        ;
                        assert(dec_val(p0) * m_spec > u64::MAX * 1) by (nonlinear_arith)
                            requires
                                dec_val(p0) > u64::MAX,
                                m_spec >= 1,
                        ;
                    }
                }
            }
            return None;
        },
    };
    let frac = match parse_dec_u64(pieces[1].as_slice()) {
        Some(v) => v,
        None => {
            return None;
        },
    };
    let frac_len = pieces[1].len();

    // the scaled fraction, exactly, in 128-bit arithmetic
    let frac_term: u64 = if frac_len >= 39 {
        proof {
            lemma_pow10_mono(39, frac_len as int);
            assert(pow10(39) == 1000000000000000000000000000000000000000int) by {
                reveal_with_fuel(pow10, 40);
            }
            assert(frac * m_spec <= u64::MAX * 1000000000int) by (nonlinear_arith)
                requires
                    0 <= frac <= u64::MAX,
                    1 <= m_spec <= 1000000000,
            ;
            assert(frac * m_spec < pow10(frac_len as int));
            vstd::arithmetic::div_mod::lemma_basic_div(
                frac * m_spec,
                pow10(frac_len as int),
            );
        }
        0
    } else {
        let mut scale: u128 = 1;
        let mut fl: usize = 0;
        proof {
            lemma_pow10_mono(0, 38);
        }
        while fl < frac_len
            invariant
                frac_len <= 38,
                0 <= fl <= frac_len,
                scale == pow10(fl as int),
                scale <= pow10(38),
            decreases frac_len - fl,
        {
            proof {
                lemma_pow10_mono(fl as int, 37);
                lemma_pow10_mono(fl + 1, 38);
                assert(pow10(37) == 10000000000000000000000000000000000000int) by {
                    reveal_with_fuel(pow10, 40);
                }
                assert(pow10(38) == 100000000000000000000000000000000000000int) by {
                    reveal_with_fuel(pow10, 40);
                }
            }
            scale = scale * 10;
            fl = fl + 1;
        }
        proof {
            assert(mult == m_spec);
        }
        proof {
            reveal_with_fuel(pow10, 40);
            lemma_pow10_pos(frac_len as int);
            assert((frac as u128) * (mult as u128) <= u64::MAX * 1000000000) by (
            nonlinear_arith)
                requires
                    0 <= frac <= u64::MAX,
                    1 <= mult <= 1000000000,
            ;
        }
        let term128 = (frac as u128) * (mult as u128) / scale;
        proof {
            assert(term128 <= (frac as u128) * (mult as u128)) by {
                vstd::arithmetic::div_mod::lemma_div_is_ordered_by_denominator(
                    (frac as u128 * mult as u128) as int,
                    1,
                    scale as int,
                );
            }
            assert(frac * m_spec / pow10(frac_len as int) <= frac * m_spec / 1) by {
                vstd::arithmetic::div_mod::lemma_div_is_ordered_by_denominator(
                    (frac * m_spec) as int,
                    1,
                    pow10(frac_len as int) as int,
                );
            }
            assert(frac * m_spec <= u64::MAX * 1000000000) by (nonlinear_arith)
                requires
                    0 <= frac <= u64::MAX,
                    1 <= m_spec <= 1000000000,
            ;
        }
        if term128 > u64::MAX as u128 {
            proof {
                vstd::arithmetic::div_mod::lemma_div_pos_is_pos(
                    (whole as int) * m_spec,
                    1,
                );
                assert(whole * m_spec >= 0) by (nonlinear_arith)
                    requires
                        whole >= 0,
                        m_spec >= 1,
                ;
            }
            return None;
        }
        term128 as u64
    };
    let scaled_whole = match whole.checked_mul(mult) {
        Some(v) => v,
        None => {
            proof {
                lemma_pow10_pos(frac_len as int);
                vstd::arithmetic::div_mod::lemma_div_pos_is_pos(
                    dec_val(p1) * m_spec,
                    pow10(frac_len as int),
                );
                assert(dec_val(p1) * m_spec >= 0) by (nonlinear_arith)
                    requires
                        dec_val(p1) >= 0,
                        m_spec >= 1,
                ;
            }
            return None;
        },
    };
    match scaled_whole.checked_add(frac_term) {
        Some(v) => Some(v),
        None => None,
    }
}

} // verus!
