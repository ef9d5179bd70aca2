use onebrc::aggregate::{process_chunk, Stats};
use onebrc::chunks::{split_after_offset, split_to_aligned_chunks};
use onebrc::parse::{decode_temperature, parse_line, split_on};
use onebrc::record::Record;
use onebrc::report::{push_digits, push_tenths, report};
use onebrc::summary::summarize;

fn text(v: Vec<u8>) -> String {
    String::from_utf8(v).unwrap()
}

fn tenths(v: i128) -> String {
    let mut out = Vec::new();
    push_tenths(&mut out, v);
    text(out)
}

fn summary_of(stats: &Stats) -> String {
    text(report(stats))
}

#[test]
fn record_tracks_min_max_sum_count() {
    let values: [i16; 6] = [15, -30, 999, 0, -999, 42];
    let mut r = Record::new(values[0]);
    for v in &values[1..] {
        r.add(*v);
    }
    assert_eq!(r.min, -999);
    assert_eq!(r.max, 999);
    assert_eq!(r.sum, 27);
    assert_eq!(r.count, 6);
}

#[test]
fn record_single_observation() {
    let r = Record::new(-57);
    assert_eq!((r.min, r.max, r.sum, r.count), (-57, -57, -57, 1));
    assert_eq!(r.average(), -57);
}

fn same(a: &Record, b: &Record) -> bool {
    a.min == b.min && a.max == b.max && a.sum == b.sum && a.count == b.count
}

#[test]
fn record_merge_any_grouping_or_order() {
    let mut a = Record::new(10);
    a.add(-5);
    let b = Record::new(70);
    let mut c = Record::new(-20);
    c.add(3);

    let mut left = a;
    left.merge(&b);
    left.merge(&c);

    let mut bc = b;
    bc.merge(&c);
    let mut right = a;
    right.merge(&bc);

    let mut reversed = c;
    reversed.merge(&b);
    reversed.merge(&a);

    assert!(same(&left, &right));
    assert!(same(&left, &reversed));
    assert_eq!((left.min, left.max, left.sum, left.count), (-20, 70, 58, 5));
}

#[test]
fn decode_rejects_other_shapes() {
    for bad in [
        b"".as_slice(),
        b"1",
        b"12",
        b"+1.0",
        b"1.00",
        b"123.4",
        b"-123.4",
        b"1,0",
        b"a.0",
        b"1.a",
        b"--1.0",
        b" 1.0",
        b"1e1",
    ] {
        assert_eq!(decode_temperature(bad), None, "{:?}", bad);
    }
    assert_eq!(decode_temperature(b"12.3"), Some(123));
    assert_eq!(decode_temperature(b"-2.3"), Some(-23));
}

#[test]
fn split_on_missing_delimiter() {
    assert_eq!(split_on(b';', b"123456".as_slice()), None);
    assert_eq!(split_on(b';', b"".as_slice()), None);
    assert_eq!(
        split_on(b';', b";x".as_slice()),
        Some((b"".as_slice(), b"x".as_slice()))
    );
}

#[test]
fn split_after_offset_without_newline() {
    assert_eq!(split_after_offset(b'\n', b"123\n456".as_slice(), 5), None);
}

#[test]
fn parse_line_cases() {
    assert_eq!(
        parse_line(b"Oslo;-3.5\nrest".as_slice()),
        Some((b"Oslo".as_slice(), -35, b"rest".as_slice()))
    );
    assert_eq!(parse_line(b"Oslo-3.5\n".as_slice()), None);
    assert_eq!(parse_line(b"Oslo;-3.5".as_slice()), None);
    assert_eq!(parse_line(b"Oslo;-3.55\n".as_slice()), None);
}

fn assert_partition(data: &[u8], n: usize) {
    let chunks = split_to_aligned_chunks(data, n);
    assert!(chunks.len() <= n);
    let joined: Vec<u8> = chunks.concat();
    assert_eq!(joined, data);
    for (i, c) in chunks.iter().enumerate() {
        assert!(!c.is_empty());
        if i + 1 < chunks.len() {
            assert_eq!(*c.last().unwrap(), b'\n');
        }
    }
    assert_eq!(data.is_empty(), chunks.is_empty());
}

#[test]
fn partition_properties() {
    let data = b"a;1.0\nbb;2.0\nccc;3.0\ndddd;4.0\ne;5.0\n";
    for n in 1..12 {
        assert_partition(data, n);
    }
    let unterminated = b"a;1.0\nbb;2.0\nccc;3.0";
    for n in 1..8 {
        assert_partition(unterminated, n);
    }
    for n in 1..4 {
        assert_partition(b"", n);
    }
}

#[test]
fn partition_edge_cases() {
    assert!(split_to_aligned_chunks(b"", 3).is_empty());
    assert!(split_to_aligned_chunks(b"", 1).is_empty());
    let one = split_to_aligned_chunks(b"x\ny", 1);
    assert_eq!(one, vec![b"x\ny".as_slice()]);
    let tail = split_to_aligned_chunks(b"123\n456\n789", 2);
    assert_eq!(tail, vec![b"123\n456\n".as_slice(), b"789".as_slice()]);
    let many = split_to_aligned_chunks(b"1\n2\n", 10);
    assert_eq!(many, vec![b"1\n".as_slice(), b"2\n".as_slice()]);
}

#[test]
fn chunk_scan_gathers_each_category() {
    let stats = process_chunk(b"X;10.0\nY;20.0\nX;30.0\n").unwrap();
    assert_eq!(stats.observations(), 3);
    let x = stats.get(b"X").unwrap();
    assert_eq!((x.min, x.max, x.sum, x.count), (100, 300, 400, 2));
    let y = stats.get(b"Y").unwrap();
    assert_eq!((y.min, y.max, y.sum, y.count), (200, 200, 200, 1));
    assert!(stats.get(b"Z").is_none());
    let mut keys = stats.keys();
    keys.sort();
    assert_eq!(keys, vec![b"X".to_vec(), b"Y".to_vec()]);
}

#[test]
fn chunk_scan_rejects_malformed() {
    assert!(process_chunk(b"X;10.0\nY;2x.0\n").is_none());
    assert!(process_chunk(b"X;10.0\nY20.0\n").is_none());
    assert!(process_chunk(b"X;10.0").is_none());
    let empty = process_chunk(b"").unwrap();
    assert_eq!(empty.observations(), 0);
    assert_eq!(summary_of(&empty), "{}");
}

#[test]
fn merging_chunks_equals_one_pass() {
    let data: &[u8] =
        b"Oslo;-3.5\nRome;21.0\nOslo;4.1\nLima;18.2\nRome;-0.4\nOslo;-12.0\nLima;18.3\nAb;0.0\n";
    let whole = summary_of(&process_chunk(data).unwrap());
    for n in 1..10 {
        let mut global = Stats::new();
        for c in split_to_aligned_chunks(data, n) {
            global.merge(process_chunk(c).unwrap());
        }
        assert_eq!(summary_of(&global), whole);
        assert_eq!(global.observations(), 8);
    }
    assert_eq!(
        whole,
        "{Ab=0.0/0.0/0.0, Lima=18.2/18.3/18.3, Oslo=-12.0/-3.8/4.1, Rome=-0.4/10.3/21.0}"
    );
}

#[test]
fn merge_order_does_not_matter() {
    let a = b"k;1.0\nm;2.0\n".as_slice();
    let b = b"k;-1.0\n".as_slice();
    let c = b"m;9.9\nn;0.1\n".as_slice();
    let mut g1 = Stats::new();
    g1.merge(process_chunk(a).unwrap());
    g1.merge(process_chunk(b).unwrap());
    g1.merge(process_chunk(c).unwrap());
    let mut g2 = Stats::new();
    g2.merge(process_chunk(c).unwrap());
    g2.merge(process_chunk(a).unwrap());
    g2.merge(process_chunk(b).unwrap());
    assert_eq!(summary_of(&g1), summary_of(&g2));
    assert_eq!(summary_of(&g1), "{k=-1.0/0.0/1.0, m=2.0/6.0/9.9, n=0.1/0.1/0.1}");
}

#[test]
fn end_to_end_any_worker_count() {
    let data = b"X;10.0\nY;20.0\nX;30.0\n";
    for w in 1..8 {
        let out = summarize(data, w).unwrap();
        assert_eq!(text(out), "{X=10.0/20.0/30.0, Y=20.0/20.0/20.0}");
    }
}

#[test]
fn end_to_end_malformed() {
    assert!(summarize(b"X;10.0\nY;20\n", 2).is_none());
    assert!(summarize(b"X;10.0\nY;20.0", 1).is_none());
    assert!(summarize(b"X;10.0\nY;20.0\n", 1).is_some());
}

#[test]
fn report_sorts_by_bytes() {
    let stats = process_chunk(b"b;1.0\na;2.0\nB;3.0\naa;4.0\n").unwrap();
    assert_eq!(
        summary_of(&stats),
        "{B=3.0/3.0/3.0, a=2.0/2.0/2.0, aa=4.0/4.0/4.0, b=1.0/1.0/1.0}"
    );
}

#[test]
fn average_has_one_digit() {
    let mut r = Record::new(100);
    r.add(0);
    r.add(0);
    assert_eq!(r.sum, 100);
    assert_eq!(r.count, 3);
    assert_eq!(r.average(), 33);
    assert_eq!(tenths(r.average()), "3.3");
    let stats = process_chunk(b"A;0.0\nA;0.0\nA;1.0\n").unwrap();
    assert_eq!(summary_of(&stats), "{A=0.0/0.3/1.0}");
}

#[test]
fn average_rounds_half_away_from_zero() {
    let mut r = Record::new(1);
    r.add(2);
    assert_eq!(r.average(), 2);
    let mut n = Record::new(-1);
    n.add(-2);
    assert_eq!(n.average(), -2);
    let mut z = Record::new(-1);
    z.add(0);
    z.add(0);
    assert_eq!(z.average(), 0);
}

#[test]
fn tenths_rendering() {
    assert_eq!(tenths(0), "0.0");
    assert_eq!(tenths(-3), "-0.3");
    assert_eq!(tenths(999), "99.9");
    assert_eq!(tenths(-999), "-99.9");
    assert_eq!(tenths(1234567), "123456.7");
    let mut out = Vec::new();
    push_digits(&mut out, 9071);
    assert_eq!(text(out), "9071");
}

#[test]
fn end_to_end_category_with_newline() {
    let out = summarize(b"a\nb;1.0\nc;2.0\n", 1).unwrap();
    assert_eq!(out, b"{a\nb=1.0/1.0/1.0, c=2.0/2.0/2.0}".to_vec());
}
