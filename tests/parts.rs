use station_stats::{compare_keys, mean, parse_value, ChunkReader, Metrics, StatsError, WorkerTable, MergedTable};

#[test]
fn parses_fixed_point_values() {
    assert_eq!(parse_value(b"1.0"), Some(1000));
    assert_eq!(parse_value(b"-12.345"), Some(-12345));
    assert_eq!(parse_value(b"+0.5"), Some(500));
    assert_eq!(parse_value(b".5"), Some(500));
    assert_eq!(parse_value(b"5."), Some(5000));
    assert_eq!(parse_value(b"42"), Some(42000));
    assert_eq!(parse_value(b"-0.0"), Some(0));
    assert_eq!(parse_value(b"007.25"), Some(7250));
    assert_eq!(parse_value(b"999999999999999.999"), Some(999_999_999_999_999_999));
}

#[test]
fn rejects_other_texts() {
    for t in [&b""[..], b"-", b".", b"-.", b"1.2345", b"abc", b"1e3", b"1.2.3", b"1,5", b" 1", b"--1", b"1000000000000000"] {
        assert_eq!(parse_value(t), None, "{:?}", t);
    }
}

#[test]
fn agrees_with_float_parsing() {
    for t in ["0.1", "-3.7", "12.3", "99.9", "-99.9", "45.678", "0.001", "1234.5"] {
        let f: f64 = fast_float::parse(t).unwrap();
        let v = parse_value(t.as_bytes()).unwrap();
        assert!((v as f64 / 1000.0 - f).abs() < 1e-9, "{}", t);
    }
}

#[test]
fn metrics_update_and_merge() {
    let mut m = Metrics::new(1500);
    m.update(-500);
    m.update(2500);
    assert_eq!(m, Metrics { count: 3, sum: 3500, min: -500, max: 2500 });
    let mut n = Metrics::new(7000);
    n.merge(&m);
    assert_eq!(n, Metrics { count: 4, sum: 10500, min: -500, max: 7000 });
}

#[test]
fn mean_rounds_toward_zero() {
    assert_eq!(mean(4000, 2), 2000);
    assert_eq!(mean(10, 3), 3);
    assert_eq!(mean(-10, 3), -3);
    assert_eq!(mean(-3, 4), 0);
}

#[test]
fn compares_keys_bytewise() {
    assert!(compare_keys(b"a", b"b") < 0);
    assert!(compare_keys(b"b", b"a") > 0);
    assert!(compare_keys(b"ab", b"ab") == 0);
    assert!(compare_keys(b"ab", b"abc") < 0);
    assert!(compare_keys(b"", b"a") < 0);
    assert!(compare_keys(b"Z", b"a") < 0);
    assert!(compare_keys(&[0xc3, 0xa9], b"z") > 0);
}

#[test]
fn reader_emits_whole_lines() {
    let mut r = ChunkReader::new(8);
    assert_eq!(r.spare(), 8);
    assert_eq!(r.feed(b"ab;1\ncd"), Ok(Some(b"ab;1\n".to_vec())));
    assert_eq!(r.spare(), 6);
    assert_eq!(r.feed(b";2"), Ok(None));
    assert_eq!(r.feed(b"\nef;3"), Ok(Some(b"cd;2\n".to_vec())));
    assert_eq!(r.finish(), Some(b"ef;3".to_vec()));
}

#[test]
fn reader_refuses_a_full_buffer_without_terminator() {
    let mut r = ChunkReader::new(4);
    assert_eq!(r.feed(b"abc"), Ok(None));
    assert_eq!(r.feed(b"d"), Err(StatsError::OversizedRecord));
    let r = ChunkReader::new(4);
    assert_eq!(r.finish(), None);
}

#[test]
fn worker_table_keeps_each_key_once() {
    let mut w = WorkerTable::new();
    w.add_chunk(b"k;1\nk;2\nj;3\n").unwrap();
    w.record(b"k", 4000);
    assert_eq!(w.records(), 4);
    let mut e = w.into_entries();
    e.sort_by(|a, b| a.0.cmp(&b.0));
    assert_eq!(e, vec![
        (b"j".to_vec(), Metrics { count: 1, sum: 3000, min: 3000, max: 3000 }),
        (b"k".to_vec(), Metrics { count: 3, sum: 7000, min: 1000, max: 4000 }),
    ]);
}

#[test]
fn worker_table_stops_at_a_bad_line() {
    let mut w = WorkerTable::new();
    assert_eq!(w.add_chunk(b"a;1\nb\nc;2\n"), Err(StatsError::MalformedRecord));
    assert_eq!(w.records(), 1);
    let mut m = MergedTable::new();
    m.absorb(w);
    assert_eq!(m.len(), 1);
    assert_eq!(m.get(b"a"), Some(Metrics { count: 1, sum: 1000, min: 1000, max: 1000 }));
}

#[test]
fn merged_table_sorts_and_combines() {
    let mut m = MergedTable::new();
    m.add_entry(b"m".to_vec(), Metrics { count: 2, sum: 10, min: 1, max: 9 });
    m.add_entry(b"a".to_vec(), Metrics { count: 1, sum: 5, min: 5, max: 5 });
    m.add_entry(b"m".to_vec(), Metrics { count: 3, sum: -6, min: -4, max: 2 });
    m.add_entry(b"z".to_vec(), Metrics { count: 1, sum: 0, min: 0, max: 0 });
    let e = m.entries();
    assert_eq!(e.len(), 3);
    assert_eq!(e[0].0, b"a".to_vec());
    assert_eq!(e[1], (b"m".to_vec(), Metrics { count: 5, sum: 4, min: -4, max: 9 }));
    assert_eq!(e[2].0, b"z".to_vec());
    assert_eq!(m.records(), 7);
}
