use onebrc::chunks::{split_after_offset, split_to_aligned_chunks};
use onebrc::parse::{parse_temperature, split_on};
use onebrc::record::Record;

#[test]
fn test_record() {
    let mut record = Record::new(10);
    record.add(20);
    assert_eq!(record.min, 10);
    assert_eq!(record.max, 20);
    assert_eq!(record.sum, 30);
    assert_eq!(record.count, 2);
    assert_eq!(record.min as f32 / 10.0, 1.0);
    assert_eq!(record.max as f32 / 10.0, 2.0);
    assert_eq!(record.average() as f32 / 10.0, 1.5);
}

#[test]
fn test_records_merge() {
    let mut record1 = Record::new(10);
    record1.add(20);
    let record2 = Record::new(30);
    record1.merge(&record2);
    assert_eq!(record1.min, 10);
    assert_eq!(record1.max, 30);
    assert_eq!(record1.sum, 60);
    assert_eq!(record1.count, 3);
}

#[test]
fn test_parse_temperature() {
    assert_eq!(parse_temperature(b"0.0"), 0);

    assert_eq!(parse_temperature(b"0.1"), 1);
    assert_eq!(parse_temperature(b"1.0"), 10);
    assert_eq!(parse_temperature(b"10.0"), 100);
    assert_eq!(parse_temperature(b"99.9"), 999);

    assert_eq!(parse_temperature(b"-0.1"), -1);
    assert_eq!(parse_temperature(b"-1.0"), -10);
    assert_eq!(parse_temperature(b"-10.0"), -100);
    assert_eq!(parse_temperature(b"-99.9"), -999);
}

#[test]
fn test_split_on() {
    assert_eq!(
        split_on(b';', b"123;456;".as_slice()),
        Some((b"123".as_slice(), b"456;".as_slice()))
    );
}

#[test]
fn test_split_after() {
    assert_eq!(
        split_after_offset(b'\n', b"123\n456\n789\n".as_slice(), 0),
        Some((b"123\n".as_slice(), b"456\n789\n".as_slice()))
    );
    assert_eq!(
        split_after_offset(b'\n', b"123\n456\n789\n".as_slice(), 5),
        Some((b"123\n456\n".as_slice(), b"789\n".as_slice()))
    );
    assert_eq!(
        split_after_offset(b'\n', b"123\n456\n789\n".as_slice(), 10),
        Some((b"123\n456\n789\n".as_slice(), b"".as_slice()))
    );
    assert_eq!(
        split_after_offset(b'\n', b"123\n456\n789\n".as_slice(), 20),
        Some((b"123\n456\n789\n".as_slice(), b"".as_slice()))
    );
}

#[test]
fn test_split_to_aligned_chunks() {
    let data = b"123\n456\n789\n";
    let chunks = split_to_aligned_chunks(data, 2);
    assert_eq!(chunks.len(), 2);
    assert_eq!(chunks[0], b"123\n456\n");
    assert_eq!(chunks[1], b"789\n");
}
