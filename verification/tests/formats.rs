use timepix_spidr_data_parser::codec::{
    read_cluster_data, read_hits_data, write_cluster_to_file, write_hits_to_file, CodecError,
    ReadClusterIterator, ReadHitsIterator,
};
use timepix_spidr_data_parser::runs::{group_run_files, parse_file_name};
use timepix_spidr_data_parser::text::{
    parse_dec_u64, parse_human_readable_number, read_cluster_metadata_events, read_trigger_data,
    write_metadata_csv, write_triggers_to_csv, CsvError,
};
use timepix_spidr_data_parser::windower::metadata_for_clusters;
use timepix_spidr_data_parser::{ClusterMetadata, Hit, Trigger};

fn hit(col: u16, row: u16, toa: u64, tot: u32) -> Hit {
    Hit { col, row, toa, tot }
}

#[test]
fn hit_record_layout_is_little_endian() {
    let mut buf = Vec::new();
    write_hits_to_file(&mut buf, &vec![hit(0x0102, 0x0304, 0x05060708090a0b0c, 0x0d0e0f10)]);
    assert_eq!(
        buf,
        vec![
            0x02, 0x01, 0x04, 0x03, 0x0c, 0x0b, 0x0a, 0x09, 0x08, 0x07, 0x06, 0x05, 0x10, 0x0f,
            0x0e, 0x0d
        ]
    );
}

#[test]
fn hits_round_trip() {
    let hits = vec![hit(1, 2, 3, 4), hit(100, 200, 1_000_000, 50), hit(255, 255, u64::MAX, 0)];
    let mut buf = Vec::new();
    write_hits_to_file(&mut buf, &hits);
    assert_eq!(buf.len(), 48);
    let back = read_hits_data(&buf, None).unwrap();
    assert_eq!(back, hits);
}

#[test]
fn hits_read_respects_cap() {
    let hits = vec![hit(1, 1, 10, 1), hit(2, 2, 20, 2), hit(3, 3, 30, 3)];
    let mut buf = Vec::new();
    write_hits_to_file(&mut buf, &hits);
    let back = read_hits_data(&buf, Some(2)).unwrap();
    assert_eq!(back, hits[..2].to_vec());
}

#[test]
fn hits_read_rejects_partial_record() {
    let mut buf = Vec::new();
    write_hits_to_file(&mut buf, &vec![hit(1, 1, 10, 1)]);
    buf.push(0);
    assert_eq!(read_hits_data(&buf, None), Err(CodecError::TruncatedStream));
}

#[test]
fn hits_read_rejects_null_record() {
    let mut buf = Vec::new();
    write_hits_to_file(&mut buf, &vec![hit(1, 1, 10, 1), hit(0, 0, 0, 0)]);
    assert_eq!(read_hits_data(&buf, None), Err(CodecError::NullHitRecord));
}

#[test]
fn cluster_stream_round_trip_keeps_empty_clusters() {
    let clusters: Vec<Vec<Hit>> =
        vec![vec![hit(1, 2, 3, 4), hit(5, 6, 7, 8)], vec![], vec![hit(9, 9, 9, 9)]];
    let mut buf = Vec::new();
    for c in &clusters {
        write_cluster_to_file(&mut buf, c, 0);
    }
    assert_eq!(buf.len(), (2 + 1) * 16 + 16 + (1 + 1) * 16);
    let back = read_cluster_data(&buf).unwrap();
    assert_eq!(back, clusters);
}

#[test]
fn cluster_write_applies_toa_adjustment() {
    let mut buf = Vec::new();
    write_cluster_to_file(&mut buf, &[hit(1, 1, 1000, 5)], -999);
    let back = read_cluster_data(&buf).unwrap();
    assert_eq!(back, vec![vec![hit(1, 1, 1, 5)]]);
}

#[test]
fn cluster_read_rejects_partial_record() {
    let buf = vec![0u8; 18];
    assert_eq!(read_cluster_data(&buf), Err(CodecError::TruncatedStream));
}

#[test]
fn trigger_csv_exact_bytes() {
    let mut buf = Vec::new();
    write_triggers_to_csv(&mut buf, &vec![Trigger { event: 1, time: 100 }]);
    assert_eq!(buf, b"event,time\n1,100\n".to_vec());
}

#[test]
fn trigger_csv_round_trip() {
    let triggers = vec![
        Trigger { event: 1, time: 250 },
        Trigger { event: 2, time: 12_345_678 },
        Trigger { event: 4097, time: u64::MAX },
    ];
    let mut buf = Vec::new();
    write_triggers_to_csv(&mut buf, &triggers);
    assert_eq!(read_trigger_data(&buf).unwrap(), triggers);
}

#[test]
fn trigger_csv_rejects_bad_header() {
    assert_eq!(read_trigger_data(b"event;time\n"), Err(CsvError::MalformedHeader));
}

#[test]
fn trigger_csv_rejects_bad_row() {
    assert_eq!(read_trigger_data(b"event,time\n1;2\n"), Err(CsvError::MalformedRow));
}

#[test]
fn metadata_rows_carry_cumulative_offsets() {
    let clusters = vec![
        vec![hit(1, 1, 100, 10), hit(1, 2, 101, 20), hit(2, 1, 102, 30)],
        vec![hit(50, 50, 200, 40)],
        vec![hit(80, 80, 300, 50), hit(80, 81, 304, 60)],
    ];
    let rows = metadata_for_clusters(&clusters);
    assert_eq!(rows.len(), 3);
    assert_eq!(rows[0].offset, 0);
    assert_eq!(rows[1].offset, (3 + 1) * 16);
    assert_eq!(rows[2].offset, (3 + 1) * 16 + (1 + 1) * 16);
    assert_eq!(rows[0].event, 1);
    assert_eq!(rows[0].hits, 3);
    assert_eq!(rows[0].sum_tot, 60);
    assert_eq!(rows[0].time, 100);
    assert_eq!(rows[0].duration, 2);
    assert_eq!(rows[2].event, 3);
    assert_eq!(rows[2].duration, 4);
}

#[test]
fn metadata_csv_writes_exact_nanoseconds() {
    let row = ClusterMetadata {
        event: 1,
        time: 1000,
        duration: 1,
        hits: 2,
        sum_tot: 110,
        offset: 0,
    };
    let mut buf = Vec::new();
    write_metadata_csv(&mut buf, &vec![row]);
    // 1000 ticks = 1562.5 ns; 1 tick = 1.5625 ns
    assert_eq!(
        buf,
        b"event,time,duration,hits,sum_tot,offset\n1,1562.5,1.5625,2,110,0\n".to_vec()
    );
}

#[test]
fn metadata_event_column_reads_back() {
    let rows = vec![
        ClusterMetadata { event: 3, time: 16, duration: 0, hits: 1, sum_tot: 5, offset: 0 },
        ClusterMetadata { event: 7, time: 32, duration: 16, hits: 2, sum_tot: 9, offset: 32 },
    ];
    let mut buf = Vec::new();
    write_metadata_csv(&mut buf, &rows);
    assert_eq!(read_cluster_metadata_events(&buf).unwrap(), vec![3, 7]);
}

#[test]
fn parse_dec_handles_bounds() {
    assert_eq!(parse_dec_u64(b"0"), Some(0));
    assert_eq!(parse_dec_u64(b"18446744073709551615"), Some(u64::MAX));
    assert_eq!(parse_dec_u64(b"18446744073709551616"), None);
    assert_eq!(parse_dec_u64(b""), None);
    assert_eq!(parse_dec_u64(b"12a"), None);
}

#[test]
fn human_readable_suffixes() {
    assert_eq!(parse_human_readable_number("5"), Some(5));
    assert_eq!(parse_human_readable_number("5k"), Some(5_000));
    assert_eq!(parse_human_readable_number("5K"), Some(5_000));
    assert_eq!(parse_human_readable_number("2m"), Some(2_000_000));
    assert_eq!(parse_human_readable_number("2M"), Some(2_000_000));
    assert_eq!(parse_human_readable_number("1b"), Some(1_000_000_000));
    assert_eq!(parse_human_readable_number("1.5k"), Some(1_500));
    assert_eq!(parse_human_readable_number("0.25M"), Some(250_000));
    assert_eq!(parse_human_readable_number(""), None);
    assert_eq!(parse_human_readable_number("x"), None);
    assert_eq!(parse_human_readable_number("1.2.3k"), None);
}

#[test]
fn file_name_parses_fields() {
    let info = parse_file_name("/data/runx_W0005_H06-230102-114550-1.dat").unwrap();
    assert_eq!(info.run_name, b"runx".to_vec());
    assert_eq!(info.device, b"W0005_H06".to_vec());
    assert_eq!(info.year, 2023);
    assert_eq!(info.month, 1);
    assert_eq!(info.day, 2);
    assert_eq!(info.hour, 11);
    assert_eq!(info.minute, 45);
    assert_eq!(info.second, 50);
    assert_eq!(info.file_in_run, 1);
}

#[test]
fn file_name_without_run_name() {
    let info = parse_file_name("W0005_H06-230102-114550-12.dat").unwrap();
    assert_eq!(info.run_name, Vec::<u8>::new());
    assert_eq!(info.file_in_run, 12);
}

#[test]
fn file_name_rejects_bad_shapes() {
    assert!(parse_file_name("notes.txt").is_none());
    assert!(parse_file_name("W0005_H06-230102-114550-.dat").is_none());
    assert!(parse_file_name("W0005_H06-231402-114550-1.dat").is_none());
}

#[test]
fn run_grouping_follows_contiguous_parts() {
    let names = [
        "a_W0005_H06-230102-114550-1.dat",
        "a_W0005_H06-230102-114550-2.dat",
        "b_W0005_H06-230102-120000-1.dat",
        "b_W0005_H06-230102-120000-3.dat",
        "c_W0005_H06-230102-130000-2.dat",
    ];
    let infos: Vec<_> = names.iter().map(|n| parse_file_name(n).unwrap()).collect();
    let groups = group_run_files(&infos);
    assert_eq!(groups.len(), 2);
    assert_eq!(groups[0], vec![0, 1]);
    assert_eq!(groups[1], vec![2]);
}

#[test]
fn hits_iterator_walks_records() {
    let hits = vec![hit(1, 2, 3, 4), hit(5, 6, 7, 8)];
    let mut buf = Vec::new();
    write_hits_to_file(&mut buf, &hits);
    buf.push(0); // trailing fragment ends the stream
    let mut it = ReadHitsIterator::new(buf);
    assert_eq!(it.next(), Some(hits[0]));
    assert_eq!(it.next(), Some(hits[1]));
    assert_eq!(it.next(), None);
    assert_eq!(it.next(), None);
}

#[test]
fn cluster_iterator_walks_clusters() {
    let clusters: Vec<Vec<Hit>> = vec![vec![hit(1, 2, 3, 4)], vec![], vec![hit(5, 6, 7, 8)]];
    let mut buf = Vec::new();
    for c in &clusters {
        write_cluster_to_file(&mut buf, c, 0);
    }
    // an unterminated trailing group is not a cluster
    buf.extend_from_slice(&[1u8; 16]);
    let mut it = ReadClusterIterator::new(buf);
    assert_eq!(it.next(), Some(clusters[0].clone()));
    assert_eq!(it.next(), Some(vec![]));
    assert_eq!(it.next(), Some(clusters[2].clone()));
    assert_eq!(it.next(), None);
}

#[test]
fn run_grouping_breaks_on_device_change() {
    let names = [
        "a_W0005_H06-230102-114550-1.dat",
        "a_W0005_H07-230102-114550-2.dat",
    ];
    let infos: Vec<_> = names.iter().map(|n| parse_file_name(n).unwrap()).collect();
    let groups = group_run_files(&infos);
    assert_eq!(groups, vec![vec![0]]);
}
