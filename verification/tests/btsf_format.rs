use dayder::btsf::{
    read_btsf_file, write_correlated_btsf_file, BinaryTimeSeries, BtsfError, CorrelatedTimeSeries,
    Point,
};

fn series(name: &str, pts: &[(i32, f32)]) -> BinaryTimeSeries {
    BinaryTimeSeries {
        name: name.to_string(),
        data: pts.iter().map(|&(t, v)| Point { t, val: v.to_bits() }).collect(),
    }
}

fn le(n: u32) -> [u8; 4] {
    n.to_le_bytes()
}

fn header(version: u32, file_header: u32, rec_header: u32, records: u32) -> Vec<u8> {
    let mut v = Vec::new();
    v.extend_from_slice(&le(version));
    v.extend_from_slice(&le(file_header));
    v.extend_from_slice(&le(rec_header));
    v.extend_from_slice(&le(records));
    v
}

#[test]
fn write_lays_out_header_and_record() {
    let s = series("ab", &[(7, 1.5)]);
    let data = [CorrelatedTimeSeries { series: &s, correlation: 0.25f32.to_bits() }];
    let out = write_correlated_btsf_file(&data);
    let mut expected = header(2, 16, 12, 1);
    expected.extend_from_slice(&le(1));
    expected.extend_from_slice(&le(2));
    expected.extend_from_slice(&0.25f32.to_bits().to_le_bytes());
    expected.extend_from_slice(b"ab");
    expected.extend_from_slice(&7i32.to_le_bytes());
    expected.extend_from_slice(&1.5f32.to_bits().to_le_bytes());
    assert_eq!(out, expected);
}

#[test]
fn read_gives_back_what_was_written() {
    let a = series("Deaths by falling", &[(-10, 1.0), (0, 2.5), (86400, -3.25)]);
    let b = series("Gdp \u{e9}t\u{e9}", &[]);
    let data = [
        CorrelatedTimeSeries { series: &a, correlation: 0.9f32.to_bits() },
        CorrelatedTimeSeries { series: &b, correlation: 0 },
    ];
    let bytes = write_correlated_btsf_file(&data);
    let back = read_btsf_file(&bytes).unwrap();
    assert_eq!(back.len(), 2);
    assert_eq!(back[0].name, a.name);
    assert_eq!(back[0].data, a.data);
    assert_eq!(back[1].name, b.name);
    assert!(back[1].data.is_empty());
    assert_eq!(f32::from_bits(back[0].data[2].val), -3.25);
    assert_eq!(back[0].data[0].t, -10);
}

#[test]
fn reader_skips_extension_bytes_and_starts_at_file_header_offset() {
    // a 20 byte file header, 16 byte record headers
    let mut v = header(2, 20, 16, 1);
    v.extend_from_slice(&[9, 9, 9, 9]);
    v.extend_from_slice(&le(1));
    v.extend_from_slice(&le(1));
    v.extend_from_slice(&[0xff; 8]);
    v.extend_from_slice(b"x");
    v.extend_from_slice(&5i32.to_le_bytes());
    v.extend_from_slice(&le(0x3f800000));
    let back = read_btsf_file(&v).unwrap();
    assert_eq!(back.len(), 1);
    assert_eq!(back[0].name, "x");
    assert_eq!(back[0].data, vec![Point { t: 5, val: 0x3f800000 }]);
}

#[test]
fn short_header_is_truncated() {
    assert_eq!(read_btsf_file(&[2, 0, 0, 0, 16]).unwrap_err(), BtsfError::Truncated);
    assert_eq!(read_btsf_file(&[]).unwrap_err(), BtsfError::Truncated);
}

#[test]
fn no_records_reads_nothing() {
    let v = header(2, 1000, 3, 0);
    assert!(read_btsf_file(&v).unwrap().is_empty());
}

#[test]
fn record_header_shorter_than_its_fields_is_refused() {
    let mut v = header(2, 16, 4, 1);
    v.extend_from_slice(&le(0));
    v.extend_from_slice(&le(0));
    assert_eq!(read_btsf_file(&v).unwrap_err(), BtsfError::RecordHeaderTooShort);
}

#[test]
fn long_names_are_read_whole() {
    let mut v = header(2, 16, 12, 1);
    v.extend_from_slice(&le(0));
    v.extend_from_slice(&le(1025));
    v.extend_from_slice(&le(0));
    v.extend_from_slice(&vec![b'a'; 1025]);
    let back = read_btsf_file(&v).unwrap();
    assert_eq!(back.len(), 1);
    assert_eq!(back[0].name, "a".repeat(1025));
    assert!(back[0].data.is_empty());
    let long = series(&"n".repeat(5000), &[(3, 2.0)]);
    let bytes = write_correlated_btsf_file(&[CorrelatedTimeSeries { series: &long, correlation: 7 }]);
    let back = read_btsf_file(&bytes).unwrap();
    assert_eq!(back[0].name, long.name);
    assert_eq!(back[0].data, long.data);
}

#[test]
fn version_padding_and_extension_bytes_do_not_matter() {
    fn file(version: u32, pad: &[u8], ext: &[u8]) -> Vec<u8> {
        let mut v = header(version, 16 + pad.len() as u32, 8 + ext.len() as u32, 2);
        v.extend_from_slice(pad);
        for (name, t) in [("one", 1i32), ("two", 2i32)] {
            v.extend_from_slice(&le(1));
            v.extend_from_slice(&le(name.len() as u32));
            v.extend_from_slice(ext);
            v.extend_from_slice(name.as_bytes());
            v.extend_from_slice(&t.to_le_bytes());
            v.extend_from_slice(&le(t as u32 * 10));
        }
        v
    }
    let a = read_btsf_file(&file(2, &[], &[0, 0, 0, 0])).unwrap();
    let b = read_btsf_file(&file(9, &[1, 2, 3], &[0xff, 0xee, 0xdd, 0xcc, 0xbb, 0xaa])).unwrap();
    assert_eq!(a.len(), 2);
    assert_eq!(b.len(), 2);
    for i in 0..2 {
        assert_eq!(a[i].name, b[i].name);
        assert_eq!(a[i].data, b[i].data);
    }
    assert_eq!(a[1].name, "two");
    assert_eq!(a[1].data, vec![Point { t: 2, val: 20 }]);
}

#[test]
fn invalid_utf8_name_is_refused() {
    let mut v = header(2, 16, 8, 1);
    v.extend_from_slice(&le(0));
    v.extend_from_slice(&le(2));
    v.extend_from_slice(&[0xc3, 0x28]);
    assert_eq!(read_btsf_file(&v).unwrap_err(), BtsfError::InvalidName);
}

#[test]
fn missing_points_are_truncated() {
    let mut v = header(2, 16, 8, 1);
    v.extend_from_slice(&le(2));
    v.extend_from_slice(&le(0));
    v.extend_from_slice(&[0; 12]);
    assert_eq!(read_btsf_file(&v).unwrap_err(), BtsfError::Truncated);
}

#[test]
fn missing_record_is_truncated() {
    let mut v = header(2, 16, 8, 2);
    v.extend_from_slice(&le(0));
    v.extend_from_slice(&le(0));
    assert_eq!(read_btsf_file(&v).unwrap_err(), BtsfError::Truncated);
}

#[test]
fn name_cut_short_by_the_end_is_padded_with_zero_bytes() {
    let mut v = header(2, 16, 8, 1);
    v.extend_from_slice(&le(0));
    v.extend_from_slice(&le(5));
    v.extend_from_slice(b"ab");
    let back = read_btsf_file(&v).unwrap();
    assert_eq!(back.len(), 1);
    assert_eq!(back[0].name, "ab\0\0\0");
    assert!(back[0].data.is_empty());
    // the record header itself reaches past the end
    let mut w = header(2, 16, 100, 1);
    w.extend_from_slice(&le(0));
    w.extend_from_slice(&le(3));
    assert_eq!(read_btsf_file(&w).unwrap()[0].name, "\0\0\0");
}

#[test]
fn name_cut_short_with_points_or_too_long_is_truncated() {
    let mut v = header(2, 16, 8, 1);
    v.extend_from_slice(&le(1));
    v.extend_from_slice(&le(5));
    v.extend_from_slice(b"ab");
    assert_eq!(read_btsf_file(&v).unwrap_err(), BtsfError::Truncated);
    let mut w = header(2, 16, 8, 1);
    w.extend_from_slice(&le(0));
    w.extend_from_slice(&le(2000));
    w.extend_from_slice(b"ab");
    assert_eq!(read_btsf_file(&w).unwrap_err(), BtsfError::Truncated);
    // a name cut short leaves nothing for a next record
    let mut x = header(2, 16, 8, 2);
    x.extend_from_slice(&le(0));
    x.extend_from_slice(&le(5));
    x.extend_from_slice(b"ab");
    assert_eq!(read_btsf_file(&x).unwrap_err(), BtsfError::Truncated);
}
