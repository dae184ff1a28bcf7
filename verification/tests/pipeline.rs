use timepix_spidr_data_parser::cluster::{cluster_trigger_event, find_cluster, FindClusterIterator};
use timepix_spidr_data_parser::decoder::{
    decode_pixel, hot_pixel_list, read_raw_data, ReadRawDataMode,
};
use timepix_spidr_data_parser::sorter::{insertion_sort_hits, HitConveyor};
use timepix_spidr_data_parser::windower::{
    compute_window_bounds, event_range, extract_trigger_events, metadata_for_trigger_events,
    ns_to_ticks, overlapping_skip, TriggerWindowSettings,
};
use timepix_spidr_data_parser::{Hit, Trigger};

fn hit(col: u16, row: u16, toa: u64, tot: u32) -> Hit {
    Hit { col, row, toa, tot }
}

/// A pixel packet for the given coordinates and timing fields. The column
/// must be even and the row a multiple of four plus the pixel index's low
/// bits; for test purposes we always use the super pixel origin.
fn pixel_packet(col: u64, row: u64, spidr_time: u64, temp_toa: u64, fast: u64, adu: u64) -> u64 {
    assert!(row % 4 == 0);
    (0xA << 60) | (col << 52) | ((row >> 2) << 47) | (0 << 44) | (adu << 20) | (temp_toa << 30)
        | (fast << 16) | spidr_time
}

fn trigger_packet(raw_count: u64, coarse: u64) -> u64 {
    (0x6 << 60) | (0xF << 56) | (raw_count << 44) | (coarse << 12) | (2 << 5)
}

fn time_lsb_packet(lsb: u64) -> u64 {
    (0x6 << 60) | (0x4 << 56) | (lsb << 16)
}

fn time_msb_packet(msb: u64) -> u64 {
    (0x6 << 60) | (0x5 << 56) | (msb << 16)
}

#[test]
fn single_cluster_with_isolated_hit_discarded() {
    // S1: three mutually adjacent hits form one cluster; the far hit fails
    // the minimum-size gate.
    let mut finder = FindClusterIterator::new(2, 100, 0, 3, 100, 10_000);
    finder.feed(hit(100, 100, 1000, 50));
    finder.feed(hit(101, 100, 1001, 60));
    finder.feed(hit(100, 101, 1002, 55));
    finder.feed(hit(200, 200, 1_000_000, 50));
    let c = finder.next().expect("one cluster");
    assert_eq!(c, vec![hit(100, 100, 1000, 50), hit(101, 100, 1001, 60), hit(100, 101, 1002, 55)]);
    assert!(finder.next().is_none());
}

#[test]
fn toa_window_cuts_scan_before_adjacency() {
    // S2: the fourth hit is adjacent but beyond the seed's scan window.
    let mut finder = FindClusterIterator::new(2, 100, 0, 3, 100, 40);
    finder.feed(hit(100, 100, 1000, 50));
    finder.feed(hit(101, 100, 1001, 60));
    finder.feed(hit(100, 101, 1002, 55));
    finder.feed(hit(101, 100, 1050, 40));
    let c = finder.next().expect("one cluster");
    assert_eq!(c.len(), 3);
    assert!(c.iter().all(|h| h.toa <= 1002));
    assert!(finder.next().is_none());
}

#[test]
fn low_charge_hits_never_enter_the_buffer() {
    // P8: a hit with tot <= min_hit_tot is not buffered, so it clusters with
    // nothing.
    let mut finder = FindClusterIterator::new(1, 1, 50, 3, 100, 10_000);
    finder.feed(hit(10, 10, 100, 50));
    finder.feed(hit(10, 11, 101, 60));
    let c = finder.next().expect("cluster");
    assert_eq!(c, vec![hit(10, 11, 101, 60)]);
}

#[test]
fn zero_pixel_gap_rejects_diagonals() {
    // P9: with max_pixel_gap = 0 the diagonal neighbour stays separate.
    let hits = vec![hit(10, 10, 100, 10), hit(11, 11, 101, 10)];
    let clusters = find_cluster(&hits, 2, 1, 0, 100);
    assert!(clusters.is_empty());
    let same_pixel = vec![hit(10, 10, 100, 10), hit(10, 10, 101, 10)];
    let clusters = find_cluster(&same_pixel, 2, 1, 0, 100);
    assert_eq!(clusters.len(), 1);
}

#[test]
fn trigger_event_needs_exactly_one_cluster() {
    let two_far_pairs = vec![
        hit(10, 10, 100, 10),
        hit(10, 11, 101, 10),
        hit(200, 200, 102, 10),
        hit(200, 201, 103, 10),
    ];
    assert!(cluster_trigger_event(&two_far_pairs, 2, 1, 3, 100).is_none());
    let one_pair = vec![hit(10, 10, 100, 10), hit(10, 11, 101, 10)];
    assert_eq!(cluster_trigger_event(&one_pair, 2, 1, 3, 100).unwrap().len(), 2);
    let nothing: Vec<Hit> = vec![];
    assert!(cluster_trigger_event(&nothing, 2, 1, 3, 100).is_none());
}

#[test]
fn insertion_sort_orders_by_toa() {
    let mut hits = vec![hit(1, 1, 30, 1), hit(2, 2, 10, 2), hit(3, 3, 20, 3), hit(4, 4, 10, 4)];
    insertion_sort_hits(&mut hits);
    let toas: Vec<u64> = hits.iter().map(|h| h.toa).collect();
    assert_eq!(toas, vec![10, 10, 20, 30]);
    assert_eq!(hits.len(), 4);
}

#[test]
fn conveyor_emits_sorted_stream_under_bounded_disorder() {
    // S5 scaled down: a locally shuffled stream comes out non-decreasing.
    let batch = 1000usize;
    let skim = 800usize;
    let mut conveyor = HitConveyor::new(batch, skim);
    let mut emitted: Vec<Hit> = Vec::new();
    let mut rng: u64 = 0x12345678;
    for i in 0..10_000u64 {
        rng = rng.wrapping_mul(6364136223846793005).wrapping_add(1442695040888963407);
        let jitter = rng % 100;
        let toa = 1 + i * 3 + jitter;
        let mut flushed = conveyor.push(hit(1, 1, toa, 1));
        emitted.append(&mut flushed);
    }
    let mut tail = conveyor.finish();
    emitted.append(&mut tail);
    assert_eq!(emitted.len(), 10_000);
    for w in emitted.windows(2) {
        assert!(w[0].toa <= w[1].toa);
    }
}

#[test]
fn conveyor_flush_keeps_lookahead_tail() {
    let mut conveyor = HitConveyor::new(10, 8);
    let mut flushed_total = 0usize;
    for i in 0..10u64 {
        let flushed = conveyor.push(hit(1, 1, i + 1, 1));
        flushed_total += flushed.len();
    }
    assert_eq!(flushed_total, 8);
    assert_eq!(conveyor.watermark(), 8);
    assert_eq!(conveyor.finish().len(), 2);
}

#[test]
fn decoder_extracts_pixel_fields() {
    // tot is the 10-bit ADU count times 25 ns.
    let p = pixel_packet(16, 160, 5, 1, 0, 7);
    let h = decode_pixel(p, 0);
    assert_eq!(h.col, 16);
    assert_eq!(h.row, 160);
    assert_eq!(h.tot, 175);
    // coarse = (5 << 14) | 1; global time has no wall clock yet
    let coarse = (5u64 << 14) | 1;
    // column phase for column 16 is (16/2) mod 16 = 8 ticks
    assert_eq!(h.toa, (coarse << 4) + 8);
}

#[test]
fn decoder_never_emits_zero_toa_with_running_clock() {
    // P1: with a non-zero global clock the column phase keeps toa above zero.
    let packets = vec![time_lsb_packet(0x100), time_msb_packet(0), pixel_packet(0, 0, 0, 0, 0, 1)];
    let (_, hits, _) = read_raw_data(&packets, ReadRawDataMode::HitsOnly, None, &[]);
    assert_eq!(hits.len(), 1);
    assert!(hits[0].toa != 0);
}

#[test]
fn global_time_wrap_advances_not_regresses() {
    // P10: wall clock check bits at 3, pixel check bits at 0: the high part
    // moves forward by one wrap step.
    let long_time = 0x3800_0000u64;
    let p = pixel_packet(2, 0, 0, 1, 0, 1);
    let h = decode_pixel(p, long_time);
    let gt = ((long_time + 0x1000_0000) & 0xFFFF_C000_0000) | 1;
    assert_eq!(gt, 0x4000_0001);
    assert_eq!(h.toa, (gt << 4) + 1);
}

#[test]
fn trigger_counter_overflow_extends_event_numbers() {
    // S6: raw counts 4094, 4095, 0, 1 give events 4094, 4095, 4096, 4097.
    let packets = vec![
        trigger_packet(4094, 1000),
        trigger_packet(4095, 2000),
        trigger_packet(0, 3000),
        trigger_packet(1, 4000),
    ];
    let (n, hits, triggers) = read_raw_data(&packets, ReadRawDataMode::TriggersOnly, None, &[]);
    assert_eq!(n, 4);
    assert!(hits.is_empty());
    let events: Vec<u32> = triggers.iter().map(|t| t.event).collect();
    assert_eq!(events, vec![4094, 4095, 4096, 4097]);
}

#[test]
fn hot_pixels_are_filtered_out() {
    // S4: a hit at (16, 163) is suppressed by the compiled-in list.
    let p = pixel_packet(16, 160, 5, 1, 0, 7) | (3 << 44);  // pixel index 3: row 160 + 3
    let hot = hot_pixel_list();
    assert_eq!(hot.len(), 30);
    assert!(hot.contains(&(16, 163)));
    let (n, hits, _) = read_raw_data(&[p], ReadRawDataMode::HitsOnly, None, &hot);
    assert_eq!(n, 1);
    assert!(hits.is_empty());
    let (_, hits, _) = read_raw_data(&[p], ReadRawDataMode::HitsOnly, None, &[]);
    assert_eq!(hits.len(), 1);
    assert_eq!((hits[0].col, hits[0].row), (16, 163));
}

#[test]
fn max_packets_caps_the_read() {
    let packets = vec![trigger_packet(1, 100), trigger_packet(2, 200), trigger_packet(3, 300)];
    let (n, _, triggers) = read_raw_data(&packets, ReadRawDataMode::Both, Some(2), &[]);
    assert_eq!(n, 2);
    assert_eq!(triggers.len(), 2);
}

#[test]
fn window_bounds_split_by_post_trigger_percent() {
    assert_eq!(compute_window_bounds(1, 100), (0, 1000));
    assert_eq!(compute_window_bounds(10, 30), (7_000, 3_000));
    assert_eq!(ns_to_ticks(1000), 640);
}

#[test]
fn event_range_picks_exclusive_start_inclusive_end() {
    let hits = vec![hit(1, 1, 10, 1), hit(1, 1, 20, 1), hit(1, 1, 30, 1), hit(1, 1, 40, 1)];
    assert_eq!(event_range(&hits, 10, 30), (1, 3));
    assert_eq!(event_range(&hits, 0, 5), (0, 0));
    assert_eq!(event_range(&hits, 45, 50), (4, 4));
}

#[test]
fn overlap_suppression_skips_whole_group() {
    // S3: two triggers 500 ns apart inside 1 us windows suppress each other.
    let triggers = vec![Trigger { event: 1, time: 100_000 }, Trigger { event: 2, time: 100_500 }];
    let (behind, ahead) = compute_window_bounds(1, 100);
    let s = TriggerWindowSettings {
        window_look_behind: behind,
        window_look_ahead: ahead,
        min_event_hits: 0,
        relative_toa: false,
        write_all: true,
        prevent_overlap: true,
    };
    let hits: Vec<Hit> = Vec::new();
    let events = extract_trigger_events(&hits, &triggers, s);
    assert!(events.is_empty());
    let s_allow = TriggerWindowSettings { prevent_overlap: false, ..s };
    let events = extract_trigger_events(&hits, &triggers, s_allow);
    assert_eq!(events.len(), 2);
    assert_eq!(overlapping_skip(&triggers, 0, 101_000), 2);
    assert_eq!(overlapping_skip(&triggers, 0, 100_400), 1);
}

#[test]
fn windowed_events_carry_their_hits() {
    // Triggers at 1000 ns and 5000 ns with a 1 us window after each.
    let hits = vec![
        hit(1, 1, 600, 1),    // 937.5 ns: before the first window? 600 > 640 ticks of 1000 ns
        hit(1, 1, 700, 1),
        hit(2, 2, 3000, 1),   // 4687.5 ns: inside the second window
        hit(3, 3, 9000, 1),   // far beyond both
    ];
    let triggers = vec![Trigger { event: 1, time: 1000 }, Trigger { event: 2, time: 5000 }];
    let s = TriggerWindowSettings {
        window_look_behind: 0,
        window_look_ahead: 1000,
        min_event_hits: 0,
        relative_toa: false,
        write_all: false,
        prevent_overlap: false,
    };
    let events = extract_trigger_events(&hits, &triggers, s);
    // window one: (640, 1280] ticks holds toas 700; window two: (3200, 3840]
    // holds toa 3000? no — 3000 <= 3200, so only the first window has hits.
    assert_eq!(events.len(), 1);
    assert_eq!(events[0].event, 1);
    assert_eq!(events[0].hits, vec![hit(1, 1, 700, 1)]);
}

#[test]
fn trigger_event_rows_carry_cumulative_offsets() {
    let hits = vec![hit(1, 1, 700, 5), hit(1, 2, 710, 7)];
    let triggers = vec![Trigger { event: 1, time: 1000 }, Trigger { event: 2, time: 50_000 }];
    let s = TriggerWindowSettings {
        window_look_behind: 0,
        window_look_ahead: 1000,
        min_event_hits: 0,
        relative_toa: false,
        write_all: true,
        prevent_overlap: false,
    };
    let events = extract_trigger_events(&hits, &triggers, s);
    assert_eq!(events.len(), 2);
    let rows = metadata_for_trigger_events(&events);
    assert_eq!(rows.len(), 2);
    assert_eq!(rows[0].event, 1);
    assert_eq!(rows[0].hits, 2);
    assert_eq!(rows[0].sum_tot, 12);
    assert_eq!(rows[0].offset, 0);
    // two hit records plus a terminator come before the second record
    assert_eq!(rows[1].offset, (2 + 1) * 16);
    assert_eq!(rows[1].hits, 0);
    assert_eq!(rows[1].duration, 0);
}
