//! Raw SPIDR packet decoding and global-time reconstruction.
//!
//! Each 8-byte packet is classified by its top four bits: `0xA`/`0xB` carry a
//! pixel hit; `0x4`/`0x6` carry, by subheader, a trigger (`0xF`) or one half
//! of a wall-clock timestamp (`0x4` low word, `0x5` high word). The detector
//! supplies only a 30-bit local time of arrival; the wall clock supplies the
//! missing high bits, and a two-bit wrap between the two counters is
//! reconciled in either direction. All counter arithmetic wraps modulo the
//! machine word, exactly as the specification functions state.

use vstd::prelude::*;

use crate::{Hit, Trigger};

verus! {

/// Which record kinds a raw read should deliver.
#[derive(Clone, Copy, Debug, PartialEq, Eq, Structural)]
pub enum ReadRawDataMode {
    HitsOnly,
    TriggersOnly,
    Both,
}

// ---------------------------------------------------------------------------
// Packet classification.
// ---------------------------------------------------------------------------

/// Bits 63..60: the packet type.
pub open spec fn packet_header(p: u64) -> u64 {
    (p >> 60) & 0xF
}

/// Bits 59..56: the subtype of a control packet.
pub open spec fn packet_subheader(p: u64) -> u64 {
    (p >> 56) & 0xF
}

pub open spec fn is_pixel_packet(p: u64) -> bool {
    packet_header(p) == 0xA || packet_header(p) == 0xB
}

pub open spec fn is_control_packet(p: u64) -> bool {
    packet_header(p) == 0x4 || packet_header(p) == 0x6
}

pub open spec fn is_trigger_packet(p: u64) -> bool {
    is_control_packet(p) && packet_subheader(p) == 0xF
}

pub open spec fn is_time_lsb_packet(p: u64) -> bool {
    is_control_packet(p) && packet_subheader(p) == 0x4
}

pub open spec fn is_time_msb_packet(p: u64) -> bool {
    is_control_packet(p) && packet_subheader(p) == 0x5
}

// ---------------------------------------------------------------------------
// Pixel packets.
// ---------------------------------------------------------------------------

/// Super-pixel group column, bits 58..52 (doubled pixel column).
pub open spec fn pixel_dcol(p: u64) -> u64 {
    (p & 0x0FE0_0000_0000_0000) >> 52
}

/// Super-pixel row base, bits 50..45 (quadrupled, even).
pub open spec fn pixel_spix(p: u64) -> u64 {
    (p & 0x001F_8000_0000_0000) >> 45
}

/// Pixel index within its super pixel, bits 46..44.
pub open spec fn pixel_pix(p: u64) -> u64 {
    (p & 0x0000_7000_0000_0000) >> 44
}

/// Pixel column, in [0, 255].
pub open spec fn pixel_col(p: u64) -> u64 {
    (pixel_dcol(p) + pixel_pix(p) / 4) as u64
}

/// Pixel row, in [0, 255].
pub open spec fn pixel_row(p: u64) -> u64 {
    (pixel_spix(p) + (pixel_pix(p) & 0x3)) as u64
}

/// Time over threshold in nanoseconds: the 10-bit ADU count at bits 29..20,
/// times 25.
pub open spec fn pixel_tot(p: u64) -> u32 {
    ((((p >> 20) & 0x3FF)) * 25) as u32
}

/// The 30-bit local coarse time: the 16-bit SPIDR time joined with the
/// 14-bit local time of arrival at bits 43..30.
pub open spec fn pixel_coarse(p: u64) -> u64 {
    ((p & 0xFFFF) << 14) | ((p & 0xFFF_C000_0000) >> 30)
}

/// The 4-bit fast counter at bits 19..16; it counts up to the next coarse
/// clock edge, so a larger value means an earlier arrival.
pub open spec fn pixel_fast(p: u64) -> u64 {
    (p & 0xF_0000) >> 16
}

/// Bits 29..28 of a counter: the two bits over which the local and wall
/// clocks may disagree by one wrap.
pub open spec fn wrap_bits(t: u64) -> u64 {
    (t >> 28) & 0x3
}

/// Reconstructed global time: the wall clock supplies bits 47..30, shifted
/// down or up by one wrap step (0x1000_0000) when the two counters' check
/// bits show a two-bit wrap in either direction, and the local counter
/// supplies bits 29..0.
pub open spec fn global_time_of(long_time: u64, coarse: u64) -> u64 {
    let diff = wrap_bits(long_time) as int - wrap_bits(coarse) as int;
    let high = if diff == 1 || diff == -3 {
        vstd::wrapping::u64_specs::wrapping_sub(long_time, 0x1000_0000)
    } else if diff == 3 || diff == -1 {
        vstd::wrapping::u64_specs::wrapping_add(long_time, 0x1000_0000)
    } else {
        long_time
    };
    (high & 0xFFFF_C000_0000) | (coarse & 0x3FFF_FFFF)
}

/// Column-to-column phase correction in ticks: `(col/2) mod 16`, with a full
/// period of 16 in place of zero. Always in [1, 16].
pub open spec fn col_phase(col: u64) -> u64 {
    if (col / 2) % 16 == 0 {
        16
    } else {
        (col / 2) % 16
    }
}

/// Final time of arrival in 1.5625 ns ticks: sixteen ticks per global-time
/// count, minus the backwards-running fast counter, plus the column phase.
pub open spec fn pixel_toa(p: u64, long_time: u64) -> u64 {
    let gt = global_time_of(long_time, pixel_coarse(p));
    vstd::wrapping::u64_specs::wrapping_add(
        vstd::wrapping::u64_specs::wrapping_sub(gt << 4, pixel_fast(p)),
        col_phase(pixel_col(p)),
    )
}

/// The hit a pixel packet decodes to under wall clock `long_time`.
pub open spec fn pixel_hit(p: u64, long_time: u64) -> Hit {
    Hit {
        col: pixel_col(p) as u16,
        row: pixel_row(p) as u16,
        toa: pixel_toa(p, long_time),
        tot: pixel_tot(p),
    }
}

/// Decodes one pixel packet against the current wall clock.
pub fn decode_pixel(p: u64, long_time: u64) -> (h: Hit)
    ensures
        h == pixel_hit(p, long_time),
        h.col <= 255,
        h.row <= 255,
{
    proof {
        assert(((p & 0x0FE0_0000_0000_0000) >> 52) <= 0xFE) by (bit_vector);
        assert(((p & 0x001F_8000_0000_0000) >> 45) <= 0xFC) by (bit_vector);
        assert(((p & 0x0000_7000_0000_0000) >> 44) <= 0x7) by (bit_vector);
        assert((((p & 0x0000_7000_0000_0000) >> 44) & 0x3) <= 0x3) by (bit_vector);
        assert(((p >> 20) & 0x3FF) <= 0x3FF) by (bit_vector);
        assert(((p & 0xFFFF) << 14) <= 0x3FFF_C000) by (bit_vector);
        assert(((p & 0xFFF_C000_0000) >> 30) <= 0x3FFF) by (bit_vector);
        assert(((p & 0xF_0000) >> 16) <= 0xF) by (bit_vector);
        assert((((p & 0xFFFF) << 14) | ((p & 0xFFF_C000_0000) >> 30)) <= 0x3FFF_FFFF)
            by (bit_vector);
    }
    let dcol = (p & 0x0FE0_0000_0000_0000) >> 52;
    let spix = (p & 0x001F_8000_0000_0000) >> 45;
    let pix = (p & 0x0000_7000_0000_0000) >> 44;
    let col = (dcol + pix / 4) as u16;
    let row = (spix + (pix & 0x3)) as u16;

    let tot = (((p >> 20) & 0x3FF) * 25) as u32;

    let spidr_time = p & 0xFFFF;
    let temp_toa = (p & 0xFFF_C000_0000) >> 30;
    let temp_toa_fast = (p & 0xF_0000) >> 16;
    let temp_toa_coarse = (spidr_time << 14) | temp_toa;

    let gt = reconcile_global_time(long_time, temp_toa_coarse);

    let mut toa = (gt << 4).wrapping_sub(temp_toa_fast);
    toa = toa.wrapping_add((u64::from(col) / 2) % 16);
    if (col / 2) % 16 == 0 {
        toa = toa.wrapping_add(16);
    }
    proof {
        let ph = (pixel_col(p) / 2) % 16;
        if ph == 0 {
            assert(col_phase(pixel_col(p)) == 16);
        }
    }
    Hit { col, row, toa, tot }
}

/// Applies the two-bit wrap reconciliation between the wall clock and a
/// local coarse counter.
pub fn reconcile_global_time(long_time: u64, coarse: u64) -> (gt: u64)
    ensures
        gt == global_time_of(long_time, coarse),
{
    proof {
        assert(((coarse >> 28) & 0x3) <= 0x3) by (bit_vector);
        assert(((long_time >> 28) & 0x3) <= 0x3) by (bit_vector);
    }
    let pixel_bits = (coarse >> 28) & 0x3;
    let long_time_bits = (long_time >> 28) & 0x3;
    let diff = long_time_bits as i64 - pixel_bits as i64;

    let high = if diff == 1 || diff == -3 {
        long_time.wrapping_sub(0x1000_0000)
    } else if diff == 3 || diff == -1 {
        long_time.wrapping_add(0x1000_0000)
    } else {
        long_time
    };
    (high & 0xFFFF_C000_0000) | (coarse & 0x3FFF_FFFF)
}

/// The global time is confined to 48 bits by its masks.
pub proof fn lemma_global_time_bound(long_time: u64, coarse: u64)
    ensures
        global_time_of(long_time, coarse) < 0x1_0000_0000_0000,
{
    let diff = wrap_bits(long_time) as int - wrap_bits(coarse) as int;
    let high = if diff == 1 || diff == -3 {
        vstd::wrapping::u64_specs::wrapping_sub(long_time, 0x1000_0000)
    } else if diff == 3 || diff == -1 {
        vstd::wrapping::u64_specs::wrapping_add(long_time, 0x1000_0000)
    } else {
        long_time
    };
    let c = coarse;
    assert(((high & 0xFFFF_C000_0000) | (c & 0x3FFF_FFFF)) < 0x1_0000_0000_0000) by (bit_vector);
}

/// A hit's time of arrival is never zero once the global clock is non-zero:
/// the column phase correction contributes at least one tick and at most 16,
/// while the fast counter subtracts at most 15 of the 16 ticks of one global
/// count. (With a global time of exactly zero — no time packet seen and a
/// zero local counter — a phase equal to the fast count would cancel.)
pub proof fn lemma_pixel_toa_nonzero(p: u64, long_time: u64)
    requires
        global_time_of(long_time, pixel_coarse(p)) != 0,
    ensures
        pixel_toa(p, long_time) != 0,
{
    let gt = global_time_of(long_time, pixel_coarse(p));
    let fast = pixel_fast(p);
    let phase = col_phase(pixel_col(p));
    lemma_global_time_bound(long_time, pixel_coarse(p));
    assert(((p & 0xF_0000) >> 16) <= 0xF) by (bit_vector);
    assert(1 <= phase <= 16);
    assert(gt << 4 == gt * 16) by (bit_vector)
        requires
            gt < 0x1_0000_0000_0000,
    ;
    assert(gt * 16 >= 16);
    assert(vstd::wrapping::u64_specs::wrapping_sub(gt << 4, fast) == gt * 16 - fast);
    assert(vstd::wrapping::u64_specs::wrapping_add((gt * 16 - fast) as u64, phase) == gt * 16
        - fast + phase);
}

/// A two-bit wrap of the local counter past the wall clock (check bits 3
/// against 0) advances the reconstructed global time's high field by one
/// wrap step (0x1000_0000 counts, i.e. 0x4000_0000 after masking) instead of
/// regressing it, as long as the 18-bit high field itself is not about to
/// overflow.
pub proof fn lemma_global_time_wrap_forward(long_time: u64, coarse: u64)
    requires
        wrap_bits(long_time) == 3,
        wrap_bits(coarse) == 0,
        long_time < 0x1_0000_0000_0000,
        long_time & 0xFFFF_C000_0000 != 0xFFFF_C000_0000,
    ensures
        global_time_of(long_time, coarse) == ((long_time + 0x1000_0000) as u64
            & 0xFFFF_C000_0000) | (coarse & 0x3FFF_FFFF),
        global_time_of(long_time, coarse) & 0xFFFF_C000_0000 == (long_time & 0xFFFF_C000_0000)
            + 0x4000_0000,
{
    let lt = long_time;
    let c = coarse;
    assert(vstd::wrapping::u64_specs::wrapping_add(lt, 0x1000_0000) == lt + 0x1000_0000);
    assert((((lt + 0x1000_0000) as u64 & 0xFFFF_C000_0000) | (c & 0x3FFF_FFFF))
        & 0xFFFF_C000_0000 == ((lt + 0x1000_0000) as u64 & 0xFFFF_C000_0000)) by (bit_vector);
    assert(((lt + 0x1000_0000) as u64 & 0xFFFF_C000_0000) == (lt & 0xFFFF_C000_0000)
        + 0x4000_0000) by (bit_vector)
        requires
            (lt >> 28) & 0x3 == 3,
            lt < 0x1_0000_0000_0000,
            lt & 0xFFFF_C000_0000 != 0xFFFF_C000_0000,
    ;
}

// ---------------------------------------------------------------------------
// Trigger packets.
// ---------------------------------------------------------------------------

/// The raw 12-bit trigger count at bits 55..44.
pub open spec fn trigger_raw_count(p: u64) -> u32 {
    ((p & 0x00FF_F000_0000_0000) >> 44) as u32
}

/// The 28-bit coarse trigger time at bits 39..12.
pub open spec fn trigger_coarse(p: u64) -> u64 {
    (p & 0x0000_0FFF_FFFF_F000) >> 12
}

/// The sub-coarse trigger time: the 320 MHz clock phase at bits 8..5 scaled
/// into a 9-bit fraction, joined with bits 11..9.
pub open spec fn trigger_fine(p: u64) -> u64 {
    let f = (p >> 5) & 0xF;
    let scaled = (vstd::wrapping::u64_specs::wrapping_sub(f, 1) << 9) / 12;
    (p & 0xE00) | (scaled & 0x1FF)
}

/// The next 32-bit-counter extension: a backward jump of the coarse counter
/// by more than 1000 counts is a wrap and raises the extension; a smaller
/// backward jump is tolerated.
pub open spec fn trigger_ext_next(prev_coarse: u64, ext: u64, coarse: u64) -> u64 {
    if coarse < prev_coarse && coarse < vstd::wrapping::u64_specs::wrapping_sub(
        prev_coarse,
        1000,
    ) {
        vstd::wrapping::u64_specs::wrapping_add(ext, 0x1_0000_0000)
    } else {
        ext
    }
}

/// Trigger timestamp in nanoseconds: extended coarse counts joined with the
/// fine fraction, times the 25 ns coarse period.
pub open spec fn trigger_time_ns(ext: u64, coarse: u64, fine: u64) -> u64 {
    vstd::wrapping::u64_specs::wrapping_mul(
        vstd::wrapping::u64_specs::wrapping_add(ext, coarse) | fine,
        25,
    )
}

/// The 1-based trigger index: the raw 12-bit count plus 4096 for each time
/// the raw counter has overflowed.
pub open spec fn trigger_event_index(raw_count: u32, overflows: u32) -> u32 {
    vstd::wrapping::u32_specs::wrapping_add(
        raw_count,
        vstd::wrapping::u32_specs::wrapping_mul(4096, overflows),
    )
}

// ---------------------------------------------------------------------------
// Time-synchronisation packets.
// ---------------------------------------------------------------------------

/// The low 32 wall-clock bits carried by a time-LSB packet (bits 47..16).
pub open spec fn time_lsb(p: u64) -> u64 {
    (p & 0x0000_FFFF_FFFF_0000) >> 16
}

/// The high 16 wall-clock bits carried by a time-MSB packet, already in
/// position (bits 31..16 of the packet moved to bits 47..32).
pub open spec fn time_msb(p: u64) -> u64 {
    (p & 0x0000_0000_FFFF_0000) << 16
}

/// The next wall clock after a time-MSB packet: the combined value, unless
/// it jumps forward by more than 0x1000_0000 counts (about six seconds) over
/// a non-zero clock — then the anomalous high word is pulled back one step.
pub open spec fn long_time_next(long_time: u64, lsb: u64, p: u64) -> u64 {
    let msb = time_msb(p);
    let combined = msb | lsb;
    if combined > vstd::wrapping::u64_specs::wrapping_add(long_time, 0x1000_0000) && long_time
        > 0 {
        vstd::wrapping::u64_specs::wrapping_sub(msb, 0x1000_0000) | lsb
    } else {
        combined
    }
}

// ---------------------------------------------------------------------------
// The decoder state machine.
// ---------------------------------------------------------------------------

/// Counters the decoder carries across packets of one run.
#[derive(Clone, Copy, Debug, PartialEq, Eq, Structural)]
pub struct DecoderState {
    /// Reassembled 48-bit wall clock in 25 ns counts.
    pub long_time: u64,
    /// Latched low word from the last time-LSB packet.
    pub longtime_lsb: u64,
    /// Coarse time of the previous trigger, for wrap detection.
    pub prev_trigtime_coarse: u64,
    /// Accumulated coarse-counter wrap extension.
    pub trigtime_global_ext: u64,
    /// How often the 12-bit raw trigger counter has overflowed.
    pub trigger_overflows: u32,
}

/// What one packet yields.
#[derive(Clone, Copy, Debug, PartialEq, Eq, Structural)]
pub enum PacketOutcome {
    Pixel(Hit),
    TriggerRecord(Trigger),
    TimeUpdate,
    Ignored,
}

/// The state before any packet: all counters at zero.
pub open spec fn initial_state() -> DecoderState {
    DecoderState {
        long_time: 0,
        longtime_lsb: 0,
        prev_trigtime_coarse: 0,
        trigtime_global_ext: 0,
        trigger_overflows: 0,
    }
}

/// One step of the decoder: the state after `p` and what `p` yields. Pixel
/// packets are skipped when only triggers are wanted and vice versa; a
/// skipped trigger leaves the trigger counters untouched.
pub open spec fn packet_step(s: DecoderState, p: u64, mode: ReadRawDataMode) -> (
    DecoderState,
    PacketOutcome,
) {
    if is_pixel_packet(p) {
        if mode != ReadRawDataMode::TriggersOnly {
            (s, PacketOutcome::Pixel(pixel_hit(p, s.long_time)))
        } else {
            (s, PacketOutcome::Ignored)
        }
    } else if is_trigger_packet(p) && mode != ReadRawDataMode::HitsOnly {
        let raw = trigger_raw_count(p);
        let coarse = trigger_coarse(p);
        let ext = trigger_ext_next(s.prev_trigtime_coarse, s.trigtime_global_ext, coarse);
        let t = Trigger {
            event: trigger_event_index(raw, s.trigger_overflows),
            time: trigger_time_ns(ext, coarse, trigger_fine(p)),
        };
        let s2 = DecoderState {
            prev_trigtime_coarse: coarse,
            trigtime_global_ext: ext,
            trigger_overflows: if raw == 4095 {
                vstd::wrapping::u32_specs::wrapping_add(s.trigger_overflows, 1)
            } else {
                s.trigger_overflows
            },
            ..s
        };
        (s2, PacketOutcome::TriggerRecord(t))
    } else if is_time_lsb_packet(p) {
        (DecoderState { longtime_lsb: time_lsb(p), ..s }, PacketOutcome::TimeUpdate)
    } else if is_time_msb_packet(p) {
        (
            DecoderState { long_time: long_time_next(s.long_time, s.longtime_lsb, p), ..s },
            PacketOutcome::TimeUpdate,
        )
    } else {
        (s, PacketOutcome::Ignored)
    }
}

impl DecoderState {
    /// A fresh decoder with every counter at zero.
    pub fn new() -> (s: DecoderState)
        ensures
            s == initial_state(),
    {
        DecoderState {
            long_time: 0,
            longtime_lsb: 0,
            prev_trigtime_coarse: 0,
            trigtime_global_ext: 0,
            trigger_overflows: 0,
        }
    }
}

/// Runs one packet through the decoder, updating the carried counters.
pub fn process_packet(state: &mut DecoderState, p: u64, mode: ReadRawDataMode) -> (out:
    PacketOutcome)
    ensures
        (*final(state), out) == packet_step(*old(state), p, mode),
{
    let header = (p >> 60) & 0xF;
    if header == 0xA || header == 0xB {
        if mode != ReadRawDataMode::TriggersOnly {
            let h = decode_pixel(p, state.long_time);
            return PacketOutcome::Pixel(h);
        }
        return PacketOutcome::Ignored;
    }
    if header == 0x4 || header == 0x6 {
        let subheader = (p >> 56) & 0xF;
        if subheader == 0xF && mode != ReadRawDataMode::HitsOnly {
            proof {
                assert(((p & 0x00FF_F000_0000_0000) >> 44) <= 0xFFF) by (bit_vector);
            }
            let raw_count = ((p & 0x00FF_F000_0000_0000) >> 44) as u32;
            let trigtime_coarse = (p & 0x0000_0FFF_FFFF_F000) >> 12;
            let f = (p >> 5) & 0xF;
            let scaled = (f.wrapping_sub(1) << 9) / 12;
            let trigtime_fine = (p & 0xE00) | (scaled & 0x1FF);

            let mut ext = state.trigtime_global_ext;
            if trigtime_coarse < state.prev_trigtime_coarse && trigtime_coarse
                < state.prev_trigtime_coarse.wrapping_sub(1000) {
                ext = ext.wrapping_add(0x1_0000_0000);
            }
            let time = (ext.wrapping_add(trigtime_coarse) | trigtime_fine).wrapping_mul(25);
            let event = raw_count.wrapping_add(4096u32.wrapping_mul(state.trigger_overflows));

            state.prev_trigtime_coarse = trigtime_coarse;
            state.trigtime_global_ext = ext;
            if raw_count == 4095 {
                state.trigger_overflows = state.trigger_overflows.wrapping_add(1);
            }
            return PacketOutcome::TriggerRecord(Trigger { event, time });
        }
        if subheader == 0x4 {
            state.longtime_lsb = (p & 0x0000_FFFF_FFFF_0000) >> 16;
            return PacketOutcome::TimeUpdate;
        }
        if subheader == 0x5 {
            let msb = (p & 0x0000_0000_FFFF_0000) << 16;
            let combined = msb | state.longtime_lsb;
            if combined > state.long_time.wrapping_add(0x1000_0000) && state.long_time > 0 {
                state.long_time = msb.wrapping_sub(0x1000_0000) | state.longtime_lsb;
            } else {
                state.long_time = combined;
            }
            return PacketOutcome::TimeUpdate;
        }
    }
    PacketOutcome::Ignored
}

// ---------------------------------------------------------------------------
// Bulk decoding of a whole packet stream.
// ---------------------------------------------------------------------------

/// Whether `(col, row)` is in the hot-pixel list.
pub open spec fn is_hot_pixel(hot: Seq<(u16, u16)>, col: u16, row: u16) -> bool {
    exists|i: int| 0 <= i < hot.len() && hot[i].0 == col && hot[i].1 == row
}

/// Linear scan of the hot-pixel list.
pub fn hot_pixel_match(hot: &[(u16, u16)], col: u16, row: u16) -> (r: bool)
    ensures
        r == is_hot_pixel(hot@, col, row),
{
    let n = hot.len();
    for i in 0..n
        invariant
            n == hot@.len(),
            forall|k: int| 0 <= k < i ==> !(hot@[k].0 == col && hot@[k].1 == row),
    {
        let (hcol, hrow) = hot[i];
        if hcol == col && hrow == row {
            return true;
        }
    }
    false
}

/// The hits a packet outcome contributes, after the hot-pixel filter.
pub open spec fn emitted_hits(out: PacketOutcome, hot: Seq<(u16, u16)>) -> Seq<Hit> {
    match out {
        PacketOutcome::Pixel(h) => if is_hot_pixel(hot, h.col, h.row) {
            Seq::empty()
        } else {
            seq![h]
        },
        _ => Seq::empty(),
    }
}

/// The triggers a packet outcome contributes.
pub open spec fn emitted_triggers(out: PacketOutcome) -> Seq<Trigger> {
    match out {
        PacketOutcome::TriggerRecord(t) => seq![t],
        _ => Seq::empty(),
    }
}

/// Folds the decoder over a packet sequence: the final state and everything
/// emitted, in order.
pub open spec fn run_packets(
    s: DecoderState,
    ps: Seq<u64>,
    mode: ReadRawDataMode,
    hot: Seq<(u16, u16)>,
) -> (DecoderState, Seq<Hit>, Seq<Trigger>)
    decreases ps.len(),
{
    if ps.len() == 0 {
        (s, Seq::empty(), Seq::empty())
    } else {
        let (s1, out) = packet_step(s, ps[0], mode);
        let (sf, hs, ts) = run_packets(s1, ps.drop_first(), mode, hot);
        (sf, emitted_hits(out, hot) + hs, emitted_triggers(out) + ts)
    }
}

pub proof fn lemma_run_packets_snoc(
    s: DecoderState,
    ps: Seq<u64>,
    p: u64,
    mode: ReadRawDataMode,
    hot: Seq<(u16, u16)>,
)
    ensures
        ({
            let (sm, hs, ts) = run_packets(s, ps, mode, hot);
            let (sf, out) = packet_step(sm, p, mode);
            run_packets(s, ps.push(p), mode, hot) == (
                sf,
                hs + emitted_hits(out, hot),
                ts + emitted_triggers(out),
            )
        }),
    decreases ps.len(),
{
    reveal_with_fuel(run_packets, 3);
    let (sm, hs, ts) = run_packets(s, ps, mode, hot);
    let (sf, out) = packet_step(sm, p, mode);
    if ps.len() == 0 {
        assert(ps.push(p)[0] == p);
        assert(ps.push(p).drop_first() =~= Seq::<u64>::empty());
        assert(hs + emitted_hits(out, hot) =~= emitted_hits(out, hot) + Seq::<Hit>::empty());
        assert(ts + emitted_triggers(out) =~= emitted_triggers(out) + Seq::<Trigger>::empty());
        assert(run_packets(s, ps.push(p), mode, hot).1 == emitted_hits(out, hot) + Seq::<
            Hit,
        >::empty());
        assert(run_packets(s, ps.push(p), mode, hot) == (
            sf,
            hs + emitted_hits(out, hot),
            ts + emitted_triggers(out),
        ));
    } else {
        let (s1, out0) = packet_step(s, ps[0], mode);
        assert(ps.push(p)[0] == ps[0]);
        assert(ps.push(p).drop_first() =~= ps.drop_first().push(p));
        lemma_run_packets_snoc(s1, ps.drop_first(), p, mode, hot);
        let (sm1, hs1, ts1) = run_packets(s1, ps.drop_first(), mode, hot);
        assert(emitted_hits(out0, hot) + (hs1 + emitted_hits(out, hot)) =~= (emitted_hits(
            out0,
            hot,
        ) + hs1) + emitted_hits(out, hot));
        assert(emitted_triggers(out0) + (ts1 + emitted_triggers(out)) =~= (emitted_triggers(
            out0,
        ) + ts1) + emitted_triggers(out));
        assert(run_packets(s, ps.push(p), mode, hot) == (
            sf,
            hs + emitted_hits(out, hot),
            ts + emitted_triggers(out),
        ));
    }
}

/// How many packets a bulk read consumes under an optional cap.
pub open spec fn packets_read_limit(n_packets: int, max_packets: Option<usize>) -> int {
    match max_packets {
        Some(m) => if n_packets < m {
            n_packets
        } else {
            m as int
        },
        None => n_packets,
    }
}

/// Decodes a whole run's packet stream from a zeroed decoder: every pixel
/// hit that survives the hot-pixel filter and every trigger record, in
/// packet order, together with the number of packets consumed.
pub fn read_raw_data(
    packets: &[u64],
    mode: ReadRawDataMode,
    max_packets: Option<usize>,
    hot_pixels: &[(u16, u16)],
) -> (r: (usize, Vec<Hit>, Vec<Trigger>))
    ensures
        ({
            let n = packets_read_limit(packets@.len() as int, max_packets);
            let (sf, hs, ts) = run_packets(initial_state(), packets@.take(n), mode, hot_pixels@);
            &&& r.0 == n
            &&& r.1@ =~= hs
            &&& r.2@ =~= ts
        }),
{
    let ghost hot = hot_pixels@;
    let mut state = DecoderState::new();
    let mut hits: Vec<Hit> = Vec::new();
    let mut triggers: Vec<Trigger> = Vec::new();

    let n_packets = packets.len();
    let n = match max_packets {
        Some(m) => if n_packets < m {
            n_packets
        } else {
            m
        },
        None => n_packets,
    };
    proof {
        assert(packets@.take(0) =~= Seq::<u64>::empty());
    }
    let mut i: usize = 0;
    while i < n
        invariant
            n_packets == packets@.len(),
            n == packets_read_limit(packets@.len() as int, max_packets),
            n <= n_packets,
            0 <= i <= n,
            hot == hot_pixels@,
            (state, hits@, triggers@) == run_packets(
                initial_state(),
                packets@.take(i as int),
                mode,
                hot,
            ),
        decreases n - i,
    {
        let p = packets[i];
        let ghost pre = packets@.take(i as int);
        proof {
            lemma_run_packets_snoc(initial_state(), pre, p, mode, hot);
            assert(packets@.take(i + 1) =~= pre.push(p));
        }
        let out = process_packet(&mut state, p, mode);
        match out {
            PacketOutcome::Pixel(h) => {
                if !hot_pixel_match(hot_pixels, h.col, h.row) {
                    hits.push(h);
                } else {
                    proof {
                        assert(hits@ + emitted_hits(out, hot) =~= hits@);
                    }
                }
                proof {
                    assert(triggers@ + emitted_triggers(out) =~= triggers@);
                }
            },
            PacketOutcome::TriggerRecord(t) => {
                triggers.push(t);
                proof {
                    assert(hits@ + emitted_hits(out, hot) =~= hits@);
                }
            },
            _ => {
                proof {
                    assert(hits@ + emitted_hits(out, hot) =~= hits@);
                    assert(triggers@ + emitted_triggers(out) =~= triggers@);
                }
            },
        }
        i = i + 1;
    }
    proof {
        assert(packets@.take(n as int) =~= packets@.take(
            packets_read_limit(packets@.len() as int, max_packets),
        ));
    }
    (n, hits, triggers)
}

/// The compiled-in hot pixels: channels whose firing rate is dominated by
/// noise. The decoder drops every hit at one of these coordinates.
pub open spec fn hot_pixel_seq() -> Seq<(u16, u16)> {
    seq![
        (177u16, 245u16),
        (141u16, 245u16),
        (41u16, 130u16),
        (81u16, 205u16),
        (23u16, 196u16),
        (102u16, 249u16),
        (44u16, 114u16),
        (145u16, 236u16),
        (129u16, 164u16),
        (218u16, 103u16),
        (12u16, 90u16),
        (188u16, 88u16),
        (87u16, 148u16),
        (105u16, 253u16),
        (184u16, 175u16),
        (235u16, 142u16),
        (255u16, 238u16),
        (16u16, 163u16),
        (168u16, 203u16),
        (96u16, 207u16),
        (14u16, 101u16),
        (140u16, 164u16),
        (220u16, 102u16),
        (1u16, 112u16),
        (237u16, 174u16),
        (13u16, 228u16),
        (185u16, 122u16),
        (163u16, 120u16),
        (178u16, 142u16),
        (157u16, 114u16),
    ]
}

/// Builds the compiled-in hot-pixel list.
#[verifier::rlimit(50)]
pub fn hot_pixel_list() -> (r: Vec<(u16, u16)>)
    ensures
        r@ =~= hot_pixel_seq(),
{
    let mut v: Vec<(u16, u16)> = Vec::new();
    v.push((177, 245));
    v.push((141, 245));
    v.push((41, 130));
    v.push((81, 205));
    v.push((23, 196));
    v.push((102, 249));
    v.push((44, 114));
    v.push((145, 236));
    v.push((129, 164));
    v.push((218, 103));
    v.push((12, 90));
    v.push((188, 88));
    v.push((87, 148));
    v.push((105, 253));
    v.push((184, 175));
    v.push((235, 142));
    v.push((255, 238));
    v.push((16, 163));
    v.push((168, 203));
    v.push((96, 207));
    v.push((14, 101));
    v.push((140, 164));
    v.push((220, 102));
    v.push((1, 112));
    v.push((237, 174));
    v.push((13, 228));
    v.push((185, 122));
    v.push((163, 120));
    v.push((178, 142));
    v.push((157, 114));
    v
}

} // verus!
