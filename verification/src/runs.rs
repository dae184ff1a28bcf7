//! Raw-file naming: `<run>_<device>-YYMMDD-HHMMSS-<N>.dat`.
//!
//! A raw file's name carries an optional run name, a nine-character device
//! tag, a timestamp and a 1-based part number. Files sharing run name with
//! contiguous part numbers starting at one belong to one run.

use vstd::prelude::*;

use vstd::string::StringSliceAdditionalSpecFns;

use crate::text::{dec_val, is_dec_digits, parse_dec_u64};

verus! {

/// What a raw file's name says about it. The timestamp is kept as plain
/// calendar fields; the output directory name is formatted from them.
pub struct FileInfo {
    /// The run name, possibly empty, without its separating underscores.
    pub run_name: Vec<u8>,
    /// The nine-character device tag.
    pub device: Vec<u8>,
    pub year: u32,
    pub month: u32,
    pub day: u32,
    pub hour: u32,
    pub minute: u32,
    pub second: u32,
    /// 1-based position of this file within its run.
    pub file_in_run: u32,
}

/// A word character: a letter, a digit or an underscore.
pub open spec fn is_word_byte(c: u8) -> bool {
    (48 <= c <= 57) || (65 <= c <= 90) || (97 <= c <= 122) || c == 95
}

/// A digit.
pub open spec fn is_digit_byte(c: u8) -> bool {
    48 <= c <= 57
}

/// The nine-character device tag: a word character, four digits, an
/// underscore, a word character and two digits.
pub open spec fn is_device_tag(s: Seq<u8>) -> bool {
    &&& s.len() == 9
    &&& is_word_byte(s[0])
    &&& is_digit_byte(s[1]) && is_digit_byte(s[2]) && is_digit_byte(s[3]) && is_digit_byte(
        s[4],
    )
    &&& s[5] == 95
    &&& is_word_byte(s[6])
    &&& is_digit_byte(s[7]) && is_digit_byte(s[8])
}

/// How a parsed name relates to the path it came from: at `base` stands the
/// device tag, then dashes, the six timestamp digit pairs, the part number
/// of `nd` digits and the `.dat` suffix; before `base` stand the run name
/// and its separating underscores, cut off to the left by the last
/// non-word character of the path.
pub open spec fn file_name_shape(s: Seq<u8>, base: int, nd: int, rn: int, info: FileInfo) -> bool {
    &&& 0 <= rn <= base
    &&& nd >= 1
    &&& base + 9 + 1 + 6 + 1 + 6 + 1 + nd + 4 == s.len()
    &&& is_device_tag(s.subrange(base, base + 9))
    &&& info.device@ == s.subrange(base, base + 9)
    &&& s[base + 9] == 45
    &&& (forall|i: int| base + 10 <= i < base + 16 ==> is_digit_byte(#[trigger] s[i]))
    &&& s[base + 16] == 45
    &&& (forall|i: int| base + 17 <= i < base + 23 ==> is_digit_byte(#[trigger] s[i]))
    &&& s[base + 23] == 45
    &&& (forall|i: int| base + 24 <= i < base + 24 + nd ==> is_digit_byte(#[trigger] s[i]))
    &&& s.subrange(s.len() - 4, s.len() as int) == seq![46u8, 100u8, 97u8, 116u8]
    &&& info.year == 2000 + dec_val(s.subrange(base + 10, base + 12))
    &&& info.month == dec_val(s.subrange(base + 12, base + 14))
    &&& info.day == dec_val(s.subrange(base + 14, base + 16))
    &&& info.hour == dec_val(s.subrange(base + 17, base + 19))
    &&& info.minute == dec_val(s.subrange(base + 19, base + 21))
    &&& info.second == dec_val(s.subrange(base + 21, base + 23))
    &&& info.file_in_run == dec_val(s.subrange(base + 24, base + 24 + nd))
    &&& info.run_name@ == s.subrange(rn - info.run_name@.len(), rn)
    &&& (forall|i: int| rn <= i < base ==> s[i] == 95)
    &&& (rn == 0 || s[rn - 1] != 95)
    &&& (forall|i: int| rn - info.run_name@.len() <= i < rn ==> is_word_byte(#[trigger] s[i]))
    &&& (rn - info.run_name@.len() == 0 || !is_word_byte(s[rn - info.run_name@.len() - 1]))
}

/// Parses a raw-file path. The timestamp fields are additionally required
/// to name a real time of day (and a plausible day of month); a name that
/// does not match the convention, or whose part number is empty or beyond
/// `u32`, gives nothing — and whenever the path does carry the shape with
/// fields in range, the parse succeeds.
#[verifier::rlimit(100)]
pub fn parse_file_name(path: &str) -> (r: Option<FileInfo>)
    ensures
        match r {
            Some(info) => (exists|base: int, nd: int, rn: int|
                file_name_shape(path.spec_bytes(), base, nd, rn, info)) && 2000 <= info.year
                <= 2099 && 1 <= info.month <= 12 && 1 <= info.day <= 31 && info.hour <= 23
                && info.minute <= 59 && info.second <= 59,
            None => true,
        },
        (exists|base: int, nd: int, rn: int, info2: FileInfo|
            file_name_shape(path.spec_bytes(), base, nd, rn, info2) && 1 <= info2.month <= 12
                && 1 <= info2.day <= 31 && info2.hour <= 23 && info2.minute <= 59
                && info2.second <= 59) ==> r is Some,
{
    let ghost pb = path.spec_bytes();
    let ghost shaped = exists|base: int, nd: int, rn: int, info2: FileInfo|
        file_name_shape(pb, base, nd, rn, info2) && 1 <= info2.month <= 12 && 1 <= info2.day
            <= 31 && info2.hour <= 23 && info2.minute <= 59 && info2.second <= 59;
    let s = path.as_bytes();
    let n = s.len();
    if n < 29 {
        proof {
            if shaped {
                let (b, n2, r2, inf) = choose|b: int, n2: int, r2: int, inf: FileInfo|
                    file_name_shape(pb, b, n2, r2, inf) && 1 <= inf.month <= 12 && 1
                        <= inf.day <= 31 && inf.hour <= 23 && inf.minute <= 59 && inf.second
                        <= 59;
                assert(false);
            }
        }
        return None;
    }
    // the `.dat` suffix
    if s[n - 4] != 46 || s[n - 3] != 100 || s[n - 2] != 97 || s[n - 1] != 116 {
        proof {
            if shaped {
                let (b, n2, r2, inf) = choose|b: int, n2: int, r2: int, inf: FileInfo|
                    file_name_shape(pb, b, n2, r2, inf) && 1 <= inf.month <= 12 && 1
                        <= inf.day <= 31 && inf.hour <= 23 && inf.minute <= 59 && inf.second
                        <= 59;
                assert(pb.subrange(n - 4, n as int)[0] == pb[n - 4]);
                assert(pb.subrange(n - 4, n as int)[1] == pb[n - 3]);
                assert(pb.subrange(n - 4, n as int)[2] == pb[n - 2]);
                assert(pb.subrange(n - 4, n as int)[3] == pb[n - 1]);
                assert(false);
            }
        }
        return None;
    }
    // the part number: digits back from the suffix to a dash
    let mut p = n - 4;
    while p > 0 && 48 <= s[p - 1] && s[p - 1] <= 57
        invariant
            n == s@.len(),
            0 <= p <= n - 4,
            n >= 29,
            forall|i: int| p <= i < n - 4 ==> is_digit_byte(#[trigger] s@[i]),
        decreases p,
    {
        p = p - 1;
    }
    if p == n - 4 || p == 0 || s[p - 1] != 45 {
        proof {
            if shaped {
                let (b, n2, r2, inf) = choose|b: int, n2: int, r2: int, inf: FileInfo|
                    file_name_shape(pb, b, n2, r2, inf) && 1 <= inf.month <= 12 && 1
                        <= inf.day <= 31 && inf.hour <= 23 && inf.minute <= 59 && inf.second
                        <= 59;
                if p == n - 4 {
                    assert(is_digit_byte(pb[n - 5]));
                } else if p == 0 {
                    assert(is_digit_byte(pb[b + 23]));
                } else {
                    if b + 24 < p {
                        assert(is_digit_byte(pb[p - 1]));
                    } else if b + 24 > p {
                        assert(is_digit_byte(pb[b + 23]));
                    }
                    assert(b + 24 == p);
                }
                assert(false);
            }
        }
        return None;
    }
    let nd = n - 4 - p;
    // fixed-width timestamp and device fields
    if p < 1 + 6 + 1 + 6 + 1 + 9 {
        proof {
            if shaped {
                let (b, n2, r2, inf) = choose|b: int, n2: int, r2: int, inf: FileInfo|
                    file_name_shape(pb, b, n2, r2, inf) && 1 <= inf.month <= 12 && 1
                        <= inf.day <= 31 && inf.hour <= 23 && inf.minute <= 59 && inf.second
                        <= 59;
                if b + 24 < p {
                    assert(is_digit_byte(pb[p - 1]));
                } else if b + 24 > p {
                    assert(is_digit_byte(pb[b + 23]));
                }
                assert(false);
            }
        }
        return None;
    }
    let base = p - 24;
    let mut ts_ok = true;
    let mut q: usize = 0;
    while q < 6
        invariant
            n == s@.len(),
            base + 24 == p <= n - 4,
            0 <= q <= 6,
            ts_ok <==> forall|i: int| base + 10 <= i < base + 10 + q ==> is_digit_byte(
                #[trigger] s@[i],
            ),
        decreases 6 - q,
    {
        let c = s[base + 10 + q];
        if c < 48 || c > 57 {
            ts_ok = false;
        }
        q = q + 1;
    }
    let mut q2: usize = 0;
    let mut ts2_ok = true;
    while q2 < 6
        invariant
            n == s@.len(),
            base + 24 == p <= n - 4,
            0 <= q2 <= 6,
            ts2_ok <==> forall|i: int| base + 17 <= i < base + 17 + q2 ==> is_digit_byte(
                #[trigger] s@[i],
            ),
        decreases 6 - q2,
    {
        let c = s[base + 17 + q2];
        if c < 48 || c > 57 {
            ts2_ok = false;
        }
        q2 = q2 + 1;
    }
    if !ts_ok || !ts2_ok {
        proof {
            if shaped {
                let (b, n2, r2, inf) = choose|b: int, n2: int, r2: int, inf: FileInfo|
                    file_name_shape(pb, b, n2, r2, inf) && 1 <= inf.month <= 12 && 1
                        <= inf.day <= 31 && inf.hour <= 23 && inf.minute <= 59 && inf.second
                        <= 59;
                if b + 24 < p {
                    assert(is_digit_byte(pb[p - 1]));
                } else if b + 24 > p {
                    assert(is_digit_byte(pb[b + 23]));
                }
                assert(b == base as int);
                assert(false);
            }
        }
        return None;
    }
    if s[base + 9] != 45 || s[base + 16] != 45 || s[base + 23] != 45 {
        proof {
            if shaped {
                let (b, n2, r2, inf) = choose|b: int, n2: int, r2: int, inf: FileInfo|
                    file_name_shape(pb, b, n2, r2, inf) && 1 <= inf.month <= 12 && 1
                        <= inf.day <= 31 && inf.hour <= 23 && inf.minute <= 59 && inf.second
                        <= 59;
                if b + 24 < p {
                    assert(is_digit_byte(pb[p - 1]));
                } else if b + 24 > p {
                    assert(is_digit_byte(pb[b + 23]));
                }
                assert(b == base as int);
                assert(false);
            }
        }
        return None;
    }
    // the device tag
    let d0 = s[base];
    let mut q3: usize = 0;
    let mut tag_ok = 48 <= d0 && d0 <= 57 || 65 <= d0 && d0 <= 90 || 97 <= d0 && d0 <= 122
        || d0 == 95;
    while q3 < 4
        invariant
            n == s@.len(),
            base + 24 == p <= n - 4,
            0 <= q3 <= 4,
            tag_ok <==> (is_word_byte(s@[base as int]) && forall|i: int|
                base + 1 <= i < base + 1 + q3 ==> is_digit_byte(#[trigger] s@[i])),
        decreases 4 - q3,
    {
        let c = s[base + 1 + q3];
        if c < 48 || c > 57 {
            tag_ok = false;
        }
        q3 = q3 + 1;
    }
    if tag_ok {
        let c5 = s[base + 5];
        let d6 = s[base + 6];
        let c7 = s[base + 7];
        let c8 = s[base + 8];
        tag_ok = c5 == 95 && (48 <= d6 && d6 <= 57 || 65 <= d6 && d6 <= 90 || 97 <= d6 && d6
            <= 122 || d6 == 95) && 48 <= c7 && c7 <= 57 && 48 <= c8 && c8 <= 57;
    }
    if !tag_ok {
        proof {
            if shaped {
                let (b, n2, r2, inf) = choose|b: int, n2: int, r2: int, inf: FileInfo|
                    file_name_shape(pb, b, n2, r2, inf) && 1 <= inf.month <= 12 && 1
                        <= inf.day <= 31 && inf.hour <= 23 && inf.minute <= 59 && inf.second
                        <= 59;
                if b + 24 < p {
                    assert(is_digit_byte(pb[p - 1]));
                } else if b + 24 > p {
                    assert(is_digit_byte(pb[b + 23]));
                }
                assert(b == base as int);
                let dev = pb.subrange(b, b + 9);
                assert(is_device_tag(dev));
                assert(dev[0] == pb[b] && dev[1] == pb[b + 1] && dev[2] == pb[b + 2] && dev[3]
                    == pb[b + 3] && dev[4] == pb[b + 4] && dev[5] == pb[b + 5] && dev[6]
                    == pb[b + 6] && dev[7] == pb[b + 7] && dev[8] == pb[b + 8]);
                assert(false);
            }
        }
        return None;
    }
    // the run name: strip separating underscores, then take word characters
    let mut rn = base;
    while rn > 0 && s[rn - 1] == 95
        invariant
            n == s@.len(),
            base + 24 == p <= n - 4,
            0 <= rn <= base,
            forall|i: int| rn <= i < base ==> s@[i] == 95,
        decreases rn,
    {
        rn = rn - 1;
    }
    let mut rs = rn;
    while rs > 0 && word_byte(s[rs - 1])
        invariant
            n == s@.len(),
            base + 24 == p <= n - 4,
            0 <= rs <= rn <= base,
            forall|i: int| rs <= i < rn ==> is_word_byte(#[trigger] s@[i]),
        decreases rs,
    {
        rs = rs - 1;
    }
    let run_name = copy_bytes(s, rs, rn);
    let device = copy_bytes(s, base, base + 9);

    let yy = parse_two_digits(s, base + 10);
    let month = parse_two_digits(s, base + 12);
    let day = parse_two_digits(s, base + 14);
    let hour = parse_two_digits(s, base + 17);
    let minute = parse_two_digits(s, base + 19);
    let second = parse_two_digits(s, base + 21);
    if month < 1 || month > 12 || day < 1 || day > 31 || hour > 23 || minute > 59 || second
        > 59 {
        proof {
            if shaped {
                let (b, n2, r2, inf) = choose|b: int, n2: int, r2: int, inf: FileInfo|
                    file_name_shape(pb, b, n2, r2, inf) && 1 <= inf.month <= 12 && 1
                        <= inf.day <= 31 && inf.hour <= 23 && inf.minute <= 59 && inf.second
                        <= 59 && b == base as int;
                assert(false);
            }
        }
        return None;
    }
    let file_in_run = match parse_dec_u64(slice_part(s, p, n - 4)) {
        Some(v) => if v <= u32::MAX as u64 {
            v as u32
        } else {
            proof {
                if shaped {
                    let (b, n2, r2, inf) = choose|b: int, n2: int, r2: int, inf: FileInfo|
                        file_name_shape(pb, b, n2, r2, inf) && 1 <= inf.month <= 12 && 1
                            <= inf.day <= 31 && inf.hour <= 23 && inf.minute <= 59
                            && inf.second <= 59 && b == base as int;
                    assert(inf.file_in_run == dec_val(pb.subrange(b + 24, b + 24 + n2)));
                    assert(false);
                }
            }
            return None;
        },
        None => {
            proof {
                if shaped {
                    let (b, n2, r2, inf) = choose|b: int, n2: int, r2: int, inf: FileInfo|
                        file_name_shape(pb, b, n2, r2, inf) && 1 <= inf.month <= 12 && 1
                            <= inf.day <= 31 && inf.hour <= 23 && inf.minute <= 59
                            && inf.second <= 59 && b == base as int;
                    assert(inf.file_in_run == dec_val(pb.subrange(b + 24, b + 24 + n2)));
                    assert(is_dec_digits(pb.subrange(b + 24, b + 24 + n2))) by {
                        assert(forall|t: int| 0 <= t < n2 ==> is_digit_byte(
                            #[trigger] pb.subrange(b + 24, b + 24 + n2)[t],
                        ));
                    }
                    lemma_dec_val_fits_u32(pb.subrange(b + 24, b + 24 + n2), inf.file_in_run);
                    assert(false);
                }
            }
            return None;
        },
    };
    let info = FileInfo {
        run_name,
        device,
        year: 2000 + yy,
        month,
        day,
        hour,
        minute,
        second,
        file_in_run,
    };
    proof {
        assert(s@.subrange(n - 4, n as int) =~= seq![46u8, 100u8, 97u8, 116u8]);
        assert(forall|i: int| base + 10 <= i < base + 16 ==> is_digit_byte(#[trigger] s@[i]));
        assert(forall|i: int| base + 17 <= i < base + 23 ==> is_digit_byte(#[trigger] s@[i]));
        assert(is_device_tag(s@.subrange(base as int, base + 9)));
        assert(file_name_shape(path.spec_bytes(), base as int, nd as int, rn as int, info));
        assert(exists|b: int, d: int, r2: int|
            file_name_shape(path.spec_bytes(), b, d, r2, info));
    }
    Some(info)
}

/// A value stored in 32 bits bounds its digit string's value.
proof fn lemma_dec_val_fits_u32(s: Seq<u8>, v: u32)
    requires
        dec_val(s) == v,
    ensures
        dec_val(s) <= u32::MAX,
{
}

/// The word-character test.
fn word_byte(c: u8) -> (r: bool)
    ensures
        r == is_word_byte(c),
{
    48 <= c && c <= 57 || 65 <= c && c <= 90 || 97 <= c && c <= 122 || c == 95
}

/// Reads the two digits at `off` as a number below one hundred.
fn parse_two_digits(s: &[u8], off: usize) -> (r: u32)
    requires
        off + 2 <= s@.len(),
        is_digit_byte(s@[off as int]),
        is_digit_byte(s@[off + 1]),
    ensures
        r == dec_val(s@.subrange(off as int, off + 2)),
        r <= 99,
{
    proof {
        let seg = s@.subrange(off as int, off + 2);
        assert(seg.drop_last() =~= seq![s@[off as int]]);
        assert(seg.drop_last().drop_last() =~= Seq::<u8>::empty());
        reveal_with_fuel(dec_val, 3);
    }
    (s[off] - 48) as u32 * 10 + (s[off + 1] - 48) as u32
}

/// Copies the byte range `[lo, hi)`.
fn copy_bytes(s: &[u8], lo: usize, hi: usize) -> (r: Vec<u8>)
    requires
        lo <= hi <= s@.len(),
    ensures
        r@ =~= s@.subrange(lo as int, hi as int),
{
    let mut out: Vec<u8> = Vec::new();
    let mut i = lo;
    while i < hi
        invariant
            lo <= i <= hi <= s@.len(),
            out@ =~= s@.subrange(lo as int, i as int),
        decreases hi - i,
    {
        out.push(s[i]);
        proof {
            assert(s@.subrange(lo as int, i + 1) =~= s@.subrange(lo as int, i as int).push(
                s@[i as int],
            ));
        }
        i = i + 1;
    }
    out
}

/// The byte subslice `[lo, hi)`.
fn slice_part(s: &[u8], lo: usize, hi: usize) -> (r: &[u8])
    requires
        lo <= hi <= s@.len(),
    ensures
        r@ =~= s@.subrange(lo as int, hi as int),
{
    &s[lo..hi]
}

/// Byte-string equality.
pub fn bytes_equal(a: &Vec<u8>, b: &Vec<u8>) -> (r: bool)
    ensures
        r <==> a@ =~= b@,
{
    if a.len() != b.len() {
        return false;
    }
    let n = a.len();
    for i in 0..n
        invariant
            n == a@.len() == b@.len(),
            forall|k: int| 0 <= k < i ==> a@[k] == b@[k],
    {
        if a[i] != b[i] {
            return false;
        }
    }
    true
}

/// Groups parsed files into runs: each group starts at a file whose part
/// number is one and continues through files with the same run name and
/// device tag and contiguous part numbers two, three and so on. A file out of sequence
/// starts no group. Returned are index groups into `infos`, in order.
pub fn group_run_files(infos: &Vec<FileInfo>) -> (groups: Vec<Vec<usize>>)
    ensures
        forall|g: int| 0 <= g < groups@.len() ==> {
            let grp = (#[trigger] groups@[g])@;
            &&& grp.len() >= 1
            &&& (forall|t: int| 0 <= t < grp.len() ==> (#[trigger] grp[t]) < infos@.len())
            &&& (forall|t: int| 0 <= t < grp.len() ==> #[trigger] grp[t] == grp[0] + t)
            &&& infos@[grp[0] as int].file_in_run == 1
            &&& (forall|t: int| 1 <= t < grp.len() ==> infos@[#[trigger] grp[t] as int]
                .file_in_run == t + 1)
            &&& (forall|t: int| 1 <= t < grp.len() ==> infos@[#[trigger] grp[t] as int]
                .run_name@ =~= infos@[grp[0] as int].run_name@)
            &&& (forall|t: int| 1 <= t < grp.len() ==> infos@[#[trigger] grp[t] as int]
                .device@ =~= infos@[grp[0] as int].device@)
            &&& (grp[0] + grp.len() < infos@.len() && grp.len() + 1 < u32::MAX ==> !(infos@[
                grp[0] + grp.len()].file_in_run == grp.len() + 1 && infos@[grp[0]
                + grp.len()].run_name@ =~= infos@[grp[0] as int].run_name@ && infos@[grp[0]
                + grp.len()].device@ =~= infos@[grp[0] as int].device@))
        },
        forall|j: int| 0 <= j < infos@.len() && (#[trigger] infos@[j]).file_in_run == 1
            ==> exists|g: int| 0 <= g < groups@.len() && (#[trigger] groups@[g])@[0] == j,
        forall|g1: int, g2: int| 0 <= g1 < g2 < groups@.len() ==> (#[trigger] groups@[g1])@[0]
            + groups@[g1]@.len() <= (#[trigger] groups@[g2])@[0],
{
    let n = infos.len();
    let mut groups: Vec<Vec<usize>> = Vec::new();
    let mut i: usize = 0;
    while i < n
        invariant
            n == infos@.len(),
            0 <= i <= n,
            forall|g: int| 0 <= g < groups@.len() ==> {
                let grp = (#[trigger] groups@[g])@;
                &&& grp.len() >= 1
                &&& (forall|t: int| 0 <= t < grp.len() ==> (#[trigger] grp[t]) < infos@.len())
                &&& (forall|t: int| 0 <= t < grp.len() ==> #[trigger] grp[t] == grp[0] + t)
                &&& infos@[grp[0] as int].file_in_run == 1
                &&& (forall|t: int| 1 <= t < grp.len() ==> infos@[#[trigger] grp[t] as int]
                    .file_in_run == t + 1)
                &&& (forall|t: int| 1 <= t < grp.len() ==> infos@[#[trigger] grp[t] as int]
                    .run_name@ =~= infos@[grp[0] as int].run_name@)
                &&& (forall|t: int| 1 <= t < grp.len() ==> infos@[#[trigger] grp[t] as int]
                    .device@ =~= infos@[grp[0] as int].device@)
                &&& (grp[0] + grp.len() < infos@.len() && grp.len() + 1 < u32::MAX ==> !(
                infos@[grp[0] + grp.len()].file_in_run == grp.len() + 1 && infos@[grp[0]
                    + grp.len()].run_name@ =~= infos@[grp[0] as int].run_name@ && infos@[
                    grp[0] + grp.len()].device@ =~= infos@[grp[0] as int].device@))
                &&& grp[0] + grp.len() <= i
            },
            forall|j: int| 0 <= j < i && (#[trigger] infos@[j]).file_in_run == 1 ==> exists|
                g: int,
            | 0 <= g < groups@.len() && (#[trigger] groups@[g])@[0] == j,
            forall|g1: int, g2: int| 0 <= g1 < g2 < groups@.len() ==> (
            #[trigger] groups@[g1])@[0] + groups@[g1]@.len() <= (#[trigger] groups@[g2])@[0],
        decreases n - i,
    {
        if infos[i].file_in_run != 1 {
            i = i + 1;
            continue ;
        }
        let first = i;
        let mut grp: Vec<usize> = Vec::new();
        grp.push(i);
        let mut next: u32 = 2;
        i = i + 1;
        while i < n && next < u32::MAX && infos[i].file_in_run == next && bytes_equal(
            &infos[i].run_name,
            &infos[first].run_name,
        ) && bytes_equal(&infos[i].device, &infos[first].device)
            invariant
                n == infos@.len(),
                first < i <= n,
                2 <= next,
                grp@.len() + 1 == next,
                grp@.len() >= 1,
                i == first + grp@.len(),
                forall|t: int| 0 <= t < grp@.len() ==> #[trigger] grp@[t] == first + t,
                forall|t: int| 0 <= t < grp@.len() ==> (#[trigger] grp@[t]) < infos@.len(),
                infos@[first as int].file_in_run == 1,
                forall|t: int| 1 <= t < grp@.len() ==> infos@[#[trigger] grp@[t] as int]
                    .file_in_run == t + 1,
                forall|t: int| 1 <= t < grp@.len() ==> infos@[#[trigger] grp@[t] as int]
                    .run_name@ =~= infos@[first as int].run_name@,
                forall|t: int| 1 <= t < grp@.len() ==> infos@[#[trigger] grp@[t] as int]
                    .device@ =~= infos@[first as int].device@,
            decreases n - i,
        {
            grp.push(i);
            i = i + 1;
            next = next + 1;
        }
        let ghost pre = groups@;
        let ghost grpv = grp@;
        groups.push(grp);
        proof {
            assert(groups@.len() == pre.len() + 1);
            assert(forall|g: int| 0 <= g < pre.len() ==> groups@[g] == pre[g]);
            assert(groups@[pre.len() as int]@ == grpv);
            assert(grpv[0] == first);
            assert forall|j: int|
                0 <= j < i && (#[trigger] infos@[j]).file_in_run == 1 implies exists|g: int|
                0 <= g < groups@.len() && (#[trigger] groups@[g])@[0] == j by {
                if j < first {
                    let g = choose|g: int| 0 <= g < pre.len() && pre[g]@[0] == j;
                    assert(groups@[g]@[0] == j);
                } else if j == first {
                    assert(groups@[pre.len() as int]@[0] == j);
                } else {
                    let t = j - first;
                    assert(infos@[grpv[t] as int].file_in_run == t + 1);
                    assert(infos@[j].file_in_run != 1);
                }
            }
        }
    }
    groups
}

} // verus!
