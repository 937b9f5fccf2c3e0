use edf::error::{ErrorKind, HeaderError};
use edf::rational::Dec;
use edf::reader::header::{parse_duration, parse_records_len, read_header, read_version};
use edf::ByteSource;
use edf::Reader;

fn field(s: &str, w: usize) -> Vec<u8> {
    let mut v = s.as_bytes().to_vec();
    assert!(v.len() <= w);
    while v.len() < w {
        v.push(b' ');
    }
    v
}

fn header_bytes(records: &str, duration: &str, signals: &str) -> Vec<u8> {
    let mut h = Vec::new();
    h.extend_from_slice(&field("0", 8));
    h.extend_from_slice(&field("patient X", 80));
    h.extend_from_slice(&field("recording Y", 80));
    h.extend_from_slice(&field("02.08.51", 8));
    h.extend_from_slice(&field("10.20.30", 8));
    h.extend_from_slice(&field("256", 8));
    h.extend_from_slice(&field("reserved", 44));
    h.extend_from_slice(&field(records, 8));
    h.extend_from_slice(&field(duration, 8));
    h.extend_from_slice(&field(signals, 4));
    assert_eq!(h.len(), 256);
    h
}

/// Field-major signal-metadata block for `n` signals.
fn signal_block(
    labels: &[&str],
    pmin: &[&str],
    pmax: &[&str],
    dmin: &[&str],
    dmax: &[&str],
    samples: &[&str],
) -> Vec<u8> {
    let n = labels.len();
    let mut b = Vec::new();
    for s in labels {
        b.extend_from_slice(&field(s, 16));
    }
    for _ in 0..n {
        b.extend_from_slice(&field("transducer", 80));
    }
    for _ in 0..n {
        b.extend_from_slice(&field("uV", 8));
    }
    for s in pmin {
        b.extend_from_slice(&field(s, 8));
    }
    for s in pmax {
        b.extend_from_slice(&field(s, 8));
    }
    for s in dmin {
        b.extend_from_slice(&field(s, 8));
    }
    for s in dmax {
        b.extend_from_slice(&field(s, 8));
    }
    for _ in 0..n {
        b.extend_from_slice(&field("HP:0.1Hz", 80));
    }
    for s in samples {
        b.extend_from_slice(&field(s, 8));
    }
    for _ in 0..n {
        b.extend_from_slice(&field("", 32));
    }
    assert_eq!(b.len(), 256 * n);
    b
}

fn data_bytes(codes: &[i16]) -> Vec<u8> {
    let mut b = Vec::new();
    for c in codes {
        b.extend_from_slice(&c.to_le_bytes());
    }
    b
}

#[test]
fn version_accepts_zero_then_spaces() {
    let mut f = ByteSource::new(field("0", 8));
    assert!(read_version(&mut f).is_ok());
}

#[test]
fn version_rejects_any_deviation() {
    let mut f = ByteSource::new("1       ".as_bytes().to_vec());
    let e = read_version(&mut f).unwrap_err();
    assert_eq!(e.kind, ErrorKind::Header(HeaderError::Version));
    let mut f = ByteSource::new("0      x".as_bytes().to_vec());
    let e = read_version(&mut f).unwrap_err();
    assert_eq!(e.kind, ErrorKind::Header(HeaderError::Version));
    let mut f = ByteSource::new("00000000".as_bytes().to_vec());
    let e = read_version(&mut f).unwrap_err();
    assert_eq!(e.kind, ErrorKind::Header(HeaderError::Version));
}

#[test]
fn records_len_minus_one_is_unknown() {
    assert_eq!(parse_records_len(&field("-1", 8)), Ok(None));
}

#[test]
fn records_len_positive_is_known() {
    assert_eq!(parse_records_len(&field("100", 8)), Ok(Some(100)));
}

#[test]
fn records_len_zero_and_negative_are_errors() {
    let e = parse_records_len(&field("0", 8)).unwrap_err();
    assert_eq!(e.kind, ErrorKind::Header(HeaderError::Field));
    let e = parse_records_len(&field("-5", 8)).unwrap_err();
    assert_eq!(e.kind, ErrorKind::Header(HeaderError::Field));
}

#[test]
fn duration_integral_and_zero_fraction() {
    assert_eq!(parse_duration(&field("1", 8)), Ok(1));
    assert_eq!(parse_duration(&field("30.000", 8)), Ok(30));
}

#[test]
fn duration_accepts_leading_plus() {
    assert_eq!(parse_duration(&field("+5", 8)), Ok(5));
    assert_eq!(parse_duration(&field("+30.000", 8)), Ok(30));
    assert!(parse_duration(&field("+", 8)).is_err());
}

#[test]
fn duration_nonzero_fraction_unsupported() {
    let e = parse_duration(&field("0.5", 8)).unwrap_err();
    assert_eq!(e.kind, ErrorKind::UnsupportedValue);
}

#[test]
fn duration_garbage_is_field_error() {
    let e = parse_duration(&field("abc", 8)).unwrap_err();
    assert_eq!(e.kind, ErrorKind::Header(HeaderError::Field));
}

#[test]
fn header_fields_roundtrip() {
    let mut f = ByteSource::new(header_bytes("100", "1", "2"));
    let h = read_header(&mut f).unwrap();
    assert_eq!(h.patient_info, field("patient X", 80));
    assert_eq!(h.recording_id, field("recording Y", 80));
    assert_eq!(h.start_datetime.date.year, 2051);
    assert_eq!(h.start_datetime.date.month, 8);
    assert_eq!(h.start_datetime.date.day, 2);
    assert_eq!(h.start_datetime.time.hour, 10);
    assert_eq!(h.start_datetime.time.minute, 20);
    assert_eq!(h.start_datetime.time.second, 30);
    assert_eq!(h.size, 256);
    assert_eq!(h.reserved, field("reserved", 44));
    assert_eq!(h.records_len, Some(100));
    assert_eq!(h.duration, 1);
    assert_eq!(h.signals_len, 2);
}

#[test]
fn header_short_input_is_io_error() {
    let mut f = ByteSource::new(vec![b'0', b' ']);
    let e = read_header(&mut f).unwrap_err();
    assert_eq!(e.kind, ErrorKind::Io);
}

#[test]
fn header_non_ascii_text_is_encoding_error() {
    let mut bytes = header_bytes("100", "1", "2");
    bytes[20] = 0xFF;
    let mut f = ByteSource::new(bytes);
    let e = read_header(&mut f).unwrap_err();
    assert_eq!(e.kind, ErrorKind::Encoding);
}

fn two_signal_file() -> Vec<u8> {
    // Two signals with unequal samples-per-record (4 and 2), two records,
    // identity scaling for both signals.
    let mut file = header_bytes("2", "1", "2");
    file.extend_from_slice(&signal_block(
        &["sig a", "sig b"],
        &["-2048", "-2048"],
        &["2047", "2047"],
        &["-2048", "-2048"],
        &["2047", "2047"],
        &["4", "2"],
    ));
    // record 1: signal 1 then signal 2; record 2 likewise
    file.extend_from_slice(&data_bytes(&[1, 2, 3, 4, 10, 20, 5, 6, 7, 8, 30, 40]));
    file
}

/// Physical value of a cell as f64.
fn cell(ef: &edf::EdfFile, i: usize, j: usize) -> f64 {
    let r = &ef.data.rows[i][j];
    r.num as f64 / r.den as f64
}

#[test]
fn matrix_shape_is_signals_by_records_times_max() {
    let ef = Reader::decode(ByteSource::new(two_signal_file())).unwrap();
    assert_eq!(ef.data.rows.len(), 2);
    assert_eq!(ef.data.rows[0].len(), 8);
    assert_eq!(ef.data.rows[1].len(), 8);
}

#[test]
fn unequal_sample_counts_use_uniform_stride() {
    let ef = Reader::decode(ByteSource::new(two_signal_file())).unwrap();
    // identity scaling: physical equals the digital code exactly
    let row0: Vec<f64> = (0..8).map(|j| cell(&ef, 0, j)).collect();
    assert_eq!(row0, vec![1.0, 2.0, 3.0, 4.0, 5.0, 6.0, 7.0, 8.0]);
    // signal 2's second record sits at columns [4..6), not [2..4);
    // columns [6..8) stay zero
    let row1: Vec<f64> = (0..8).map(|j| cell(&ef, 1, j)).collect();
    assert_eq!(row1, vec![10.0, 20.0, 0.0, 0.0, 30.0, 40.0, 0.0, 0.0]);
}

#[test]
fn signal_metadata_parses_exactly() {
    let ef = Reader::decode(ByteSource::new(two_signal_file())).unwrap();
    let sh = &ef.signal_header;
    assert_eq!(sh.labels[0], "sig a".as_bytes().to_vec());
    assert_eq!(sh.labels[1], "sig b".as_bytes().to_vec());
    assert_eq!(sh.transducer_type[0], "transducer".as_bytes().to_vec());
    assert_eq!(sh.physical_dimension[0], "uV".as_bytes().to_vec());
    assert_eq!(sh.physical_min[0], Dec { m: -2048, e: 0 });
    assert_eq!(sh.digital_max[1], Dec { m: 2047, e: 0 });
    assert_eq!(sh.samples_in_record, vec![4, 2]);
    assert_eq!(sh.prefiltering[1], "HP:0.1Hz".as_bytes().to_vec());
    assert_eq!(sh.reserved_field[0], Vec::<u8>::new());
}

#[test]
fn scaling_identity_at_digital_zero() {
    // One signal: physical range [-100, 100], digital range [-2048, 2047].
    let mut file = header_bytes("1", "1", "1");
    file.extend_from_slice(&signal_block(
        &["s"],
        &["-100"],
        &["100"],
        &["-2048"],
        &["2047"],
        &["1"],
    ));
    file.extend_from_slice(&data_bytes(&[0]));
    let ef = Reader::decode(ByteSource::new(file)).unwrap();
    let scale = (-100.0f64 - 100.0) / (-2048.0 - 2047.0);
    let offset = -100.0 - scale * -2048.0;
    let expected = 0.0 * scale + offset;
    assert!((cell(&ef, 0, 0) - expected).abs() < 1e-9);
    // and exactly, as a rational: value == 100 / 4095
    let r = &ef.data.rows[0][0];
    assert_eq!(r.num * 4095, 100 * r.den);
}

#[test]
fn fractional_physical_range_is_exact() {
    let mut file = header_bytes("1", "1", "1");
    file.extend_from_slice(&signal_block(
        &["s"],
        &["-0.5"],
        &["0.5"],
        &["-1"],
        &["1"],
        &["1"],
    ));
    file.extend_from_slice(&data_bytes(&[1]));
    let ef = Reader::decode(ByteSource::new(file)).unwrap();
    // scale = (-0.5 - 0.5) / (-1 - 1) = 0.5; offset = -0.5 - 0.5 * -1 = 0
    let r = &ef.data.rows[0][0];
    assert_eq!(r.num * 2, r.den); // value == 1/2
}

#[test]
fn little_endian_decoding_is_explicit() {
    let mut file = header_bytes("1", "1", "1");
    file.extend_from_slice(&signal_block(
        &["s"],
        &["-2048"],
        &["2047"],
        &["-2048"],
        &["2047"],
        &["2"],
    ));
    file.extend_from_slice(&[0x01, 0x80, 0xFF, 0x7F]);
    let ef = Reader::decode(ByteSource::new(file)).unwrap();
    assert_eq!(cell(&ef, 0, 0), -32767.0);
    assert_eq!(cell(&ef, 0, 1), 32767.0);
}

#[test]
fn unknown_record_count_rejected_by_data_stage() {
    let mut file = header_bytes("-1", "1", "1");
    file.extend_from_slice(&signal_block(
        &["s"],
        &["-100"],
        &["100"],
        &["-2048"],
        &["2047"],
        &["1"],
    ));
    file.extend_from_slice(&data_bytes(&[0]));
    let e = Reader::decode(ByteSource::new(file)).unwrap_err();
    assert_eq!(e.kind, ErrorKind::UnsupportedValue);
}

#[test]
fn zero_signals_rejected() {
    let file = header_bytes("1", "1", "0");
    let e = Reader::decode(ByteSource::new(file)).unwrap_err();
    assert_eq!(e.kind, ErrorKind::UnsupportedValue);
}

#[test]
fn equal_digital_extremes_rejected() {
    let mut file = header_bytes("1", "1", "1");
    file.extend_from_slice(&signal_block(
        &["s"],
        &["-100"],
        &["100"],
        &["5"],
        &["5"],
        &["1"],
    ));
    file.extend_from_slice(&data_bytes(&[0]));
    let e = Reader::decode(ByteSource::new(file)).unwrap_err();
    assert_eq!(e.kind, ErrorKind::UnsupportedValue);
}

#[test]
fn non_numeric_signal_field_is_parse_error() {
    let mut file = header_bytes("1", "1", "1");
    file.extend_from_slice(&signal_block(
        &["s"],
        &["oops"],
        &["100"],
        &["-2048"],
        &["2047"],
        &["1"],
    ));
    let e = Reader::decode(ByteSource::new(file)).unwrap_err();
    assert_eq!(e.kind, ErrorKind::ParseError);
}

#[test]
fn truncated_data_section_is_io_error() {
    let mut file = header_bytes("2", "1", "1");
    file.extend_from_slice(&signal_block(
        &["s"],
        &["-100"],
        &["100"],
        &["-2048"],
        &["2047"],
        &["3"],
    ));
    // needs 2 records * 3 samples * 2 bytes = 12, give 4
    file.extend_from_slice(&data_bytes(&[1, 2]));
    let e = Reader::decode(ByteSource::new(file)).unwrap_err();
    assert_eq!(e.kind, ErrorKind::Io);
}
