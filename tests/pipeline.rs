use station_stats::{mean, summarize, MergedTable, Metrics, StatsError, WorkerTable};

fn listing(t: &MergedTable) -> Vec<(Vec<u8>, Metrics)> {
    t.entries().clone()
}

fn metrics(count: u64, sum: i128, min: i64, max: i64) -> Metrics {
    Metrics { count, sum, min, max }
}

#[test]
fn example_two_keys() {
    let t = summarize(b"A;1.0\nB;2.0\nA;3.0\n", 64).unwrap();
    let e = listing(&t);
    assert_eq!(e.len(), 2);
    assert_eq!(e[0].0, b"A".to_vec());
    assert_eq!(e[0].1, metrics(2, 4000, 1000, 3000));
    assert_eq!(mean(e[0].1.sum, e[0].1.count), 2000);
    assert_eq!(e[1].0, b"B".to_vec());
    assert_eq!(e[1].1, metrics(1, 2000, 2000, 2000));
    assert_eq!(mean(e[1].1.sum, e[1].1.count), 2000);
    assert_eq!(t.records(), 3);
}

#[test]
fn line_longer_than_buffer_is_oversized() {
    assert_eq!(summarize(b"A;1.0\nlongkey;12.5\n", 8).err(), Some(StatsError::OversizedRecord));
    // a line of exactly the capacity does not fit either
    assert_eq!(summarize(b"abcd;1.5\n", 8).err(), Some(StatsError::OversizedRecord));
    // one byte less fits, terminator included
    assert!(summarize(b"abc;1.5\n", 8).is_ok());
}

#[test]
fn unterminated_final_line_counts() {
    let a = summarize(b"A;1.0\nB;2.5", 64).unwrap();
    let b = summarize(b"A;1.0\nB;2.5\n", 64).unwrap();
    assert_eq!(listing(&a), listing(&b));
    assert_eq!(a.get(b"B"), Some(metrics(1, 2500, 2500, 2500)));
    assert_eq!(a.records(), 2);
}

#[test]
fn buffer_boundaries_do_not_change_the_result() {
    let input: &[u8] = b"Hamburg;12.0\nBulawayo;8.9\nPalembang;38.8\nHamburg;34.2\nSt. John's;15.2\nCracow;12.6\nBulawayo;-3.5\nHamburg;-0.4\n";
    let whole = summarize(input, input.len() + 1).unwrap();
    for cap in 16..input.len() + 1 {
        let t = summarize(input, cap).unwrap();
        assert_eq!(listing(&t), listing(&whole), "capacity {}", cap);
    }
    assert_eq!(whole.get(b"Hamburg"), Some(metrics(3, 45800, -400, 34200)));
}

#[test]
fn repeated_runs_agree() {
    let input: &[u8] = b"b;1\na;2\nc;3\nb;4\na;-5\n";
    let first = listing(&summarize(input, 32).unwrap());
    for _ in 0..5 {
        assert_eq!(listing(&summarize(input, 32).unwrap()), first);
    }
    let keys: Vec<Vec<u8>> = first.iter().map(|e| e.0.clone()).collect();
    assert_eq!(keys, vec![b"a".to_vec(), b"b".to_vec(), b"c".to_vec()]);
}

#[test]
fn counts_add_up_to_lines() {
    let input: &[u8] = b"x;1\ny;2\nx;3\nz;4\ny;5\nx;6\nw;7";
    let t = summarize(input, 8).unwrap();
    let total: u64 = listing(&t).iter().map(|e| e.1.count).sum();
    assert_eq!(total, 7);
    assert_eq!(t.records(), 7);
}

#[test]
fn malformed_lines_stop_the_run() {
    assert_eq!(summarize(b"A;1.0\nno separator\n", 64).err(), Some(StatsError::MalformedRecord));
    assert_eq!(summarize(b"A;1.0\nB;x\n", 64).err(), Some(StatsError::MalformedRecord));
    assert_eq!(summarize(b"A;1.0\n\nB;2.0\n", 64).err(), Some(StatsError::MalformedRecord));
    assert_eq!(summarize(b"A;\n", 64).err(), Some(StatsError::MalformedRecord));
    // the first faulty line decides
    assert_eq!(summarize(b"bad\nlongerkey;1.0\n", 8).err(), Some(StatsError::MalformedRecord));
    assert_eq!(summarize(b"longerkey;1.0\nbad\n", 8).err(), Some(StatsError::OversizedRecord));
}

#[test]
fn empty_input_gives_empty_table() {
    let t = summarize(b"", 4).unwrap();
    assert_eq!(t.len(), 0);
    assert_eq!(t.records(), 0);
}

#[test]
fn carriage_returns_and_separators_in_keys() {
    let t = summarize(b"A;1.5\r\nk;e;y;2\r\n", 64).unwrap();
    assert_eq!(t.get(b"A"), Some(metrics(1, 1500, 1500, 1500)));
    assert_eq!(t.get(b"k;e;y"), Some(metrics(1, 2000, 2000, 2000)));
    assert_eq!(t.get(b"k"), None);
}

#[test]
fn absorb_order_does_not_matter() {
    let mut w1 = WorkerTable::new();
    w1.add_chunk(b"A;1.0\nB;2.0\n").unwrap();
    let mut w2 = WorkerTable::new();
    w2.add_chunk(b"B;-4.0\nC;8.0\nA;0.5\n").unwrap();
    let mut w3 = WorkerTable::new();
    w3.add_chunk(b"B;-4.0\nC;8.0\nA;0.5\n").unwrap();
    let mut w4 = WorkerTable::new();
    w4.add_chunk(b"A;1.0\nB;2.0\n").unwrap();

    let mut m1 = MergedTable::new();
    m1.absorb(w1);
    m1.absorb(w2);
    let mut m2 = MergedTable::new();
    m2.absorb(w3);
    m2.absorb(w4);
    assert_eq!(listing(&m1), listing(&m2));
    assert_eq!(m1.get(b"A"), Some(metrics(2, 1500, 500, 1000)));
    assert_eq!(m1.get(b"B"), Some(metrics(2, -2000, -4000, 2000)));
    assert_eq!(m1.records(), 5);
}
