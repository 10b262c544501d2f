use idxfile::codec::{decode_timestamp, encode_timestamp, DecodeFault};
use idxfile::idx::{ErrorKind, IdxFile};
use idxfile::parts::IdxFilePart;
use idxfile::timetypes::{SubtitleEntry, TimeDelta, TimePoint, TimeSpan};

fn entry(start_ms: i64, end_ms: i64) -> SubtitleEntry {
    SubtitleEntry::from_span(TimeSpan::new(
        TimePoint::from_msecs(start_ms),
        TimePoint::from_msecs(end_ms),
    ))
}

#[test]
fn round_trip_identity_mixed_terminators() {
    let text = "\u{feff}# VobSub index file, v7\r\n\
                size: 720x480\n\
                timestamp: 00:00:10:000, filepos: 000000000\r\n\
                timestamp: 00:04:02:501, filepos: 000029ef8\n\
                # trailing comment";
    let doc = IdxFile::parse(text).unwrap();
    assert_eq!(doc.to_data(), text.as_bytes().to_vec());
}

#[test]
fn round_trip_identity_empty_input() {
    let doc = IdxFile::parse("").unwrap();
    assert_eq!(doc.to_data(), Vec::<u8>::new());
    assert_eq!(doc.get_subtitle_entries().len(), 0);
}

#[test]
fn round_trip_identity_blank_lines() {
    let text = "\r\n\n\r\n";
    let doc = IdxFile::parse(text).unwrap();
    assert_eq!(doc.to_data(), text.as_bytes().to_vec());
}

#[test]
fn non_timestamp_file_identity_preserved() {
    let text = "id: en, index: 0\n# alpha: fefefe\npalette: 000000\n";
    let doc = IdxFile::parse(text).unwrap();
    assert_eq!(doc.get_subtitle_entries().len(), 0);
    assert_eq!(doc.to_data(), text.as_bytes().to_vec());
}

#[test]
fn interval_derivation_three_timestamps() {
    let text = "timestamp: 00:00:10:000\n\
                timestamp: 00:00:20:000\n\
                timestamp: 00:00:30:000\n";
    let doc = IdxFile::parse(text).unwrap();
    let entries = doc.get_subtitle_entries();
    assert_eq!(entries.len(), 3);
    assert_eq!(entries[0].timespan.start.msecs(), 10_000);
    assert_eq!(entries[0].timespan.end.msecs(), 20_000);
    assert_eq!(entries[1].timespan.start.msecs(), 20_000);
    assert_eq!(entries[1].timespan.end.msecs(), 30_000);
    assert_eq!(entries[2].timespan.start.msecs(), 30_000);
    // the last entry is shown for one minute
    assert_eq!(entries[2].timespan.end.msecs(), 90_000);
}

#[test]
fn update_then_serialize_replaces_tokens_only() {
    let text = "# header\n\
                timestamp: 00:00:10:000, filepos: 000000000\n\
                timestamp: 00:00:20:000, filepos: 000011111\n\
                timestamp: 00:00:30:000, filepos: 000022222\n";
    let mut doc = IdxFile::parse(text).unwrap();
    doc.update_subtitle_entries(&[
        entry(5_000, 15_000),
        entry(15_000, 25_000),
        entry(25_000, 85_000),
    ]);
    let expected = "# header\n\
                    timestamp: 00:00:05:000, filepos: 000000000\n\
                    timestamp: 00:00:15:000, filepos: 000011111\n\
                    timestamp: 00:00:25:000, filepos: 000022222\n";
    assert_eq!(doc.to_data(), expected.as_bytes().to_vec());
}

#[test]
fn update_preserves_entry_count_and_values() {
    let text = "timestamp: 00:00:10:000\ntimestamp: 00:00:20:000\n";
    let mut doc = IdxFile::parse(text).unwrap();
    doc.update_subtitle_entries(&[entry(1_234, 2_000), entry(7_777, 9_000)]);
    let entries = doc.get_subtitle_entries();
    assert_eq!(entries.len(), 2);
    assert_eq!(entries[0].timespan.start.msecs(), 1_234);
    assert_eq!(entries[1].timespan.start.msecs(), 7_777);
}

#[test]
fn negative_time_encodes_with_single_sign() {
    let enc = encode_timestamp(TimePoint::from_msecs(-1_500));
    assert_eq!(enc, b"-00:00:01:500".to_vec());
}

#[test]
fn negative_time_after_update_serializes_signed() {
    let text = "timestamp: 00:00:10:000\n";
    let mut doc = IdxFile::parse(text).unwrap();
    doc.update_subtitle_entries(&[entry(-1_500, 58_500)]);
    assert_eq!(doc.to_data(), b"timestamp: -00:00:01:500\n".to_vec());
}

#[test]
fn malformed_line_two_fields_fails_with_line_index() {
    let err = IdxFile::parse("  timestamp: 12:99").unwrap_err();
    let ErrorKind::IdxLineParseError { line_num, msg } = err;
    assert_eq!(line_num, 0);
    assert_eq!(msg, "expected four colon-separated number fields");
}

#[test]
fn malformed_line_reports_its_own_index() {
    let err = IdxFile::parse("# fine\nsize: 720x480\ntimestamp: 1:2:3\n").unwrap_err();
    let ErrorKind::IdxLineParseError { line_num, .. } = err;
    assert_eq!(line_num, 2);
}

#[test]
fn empty_token_after_marker_fails() {
    let err = IdxFile::parse("timestamp: , filepos: 0\n").unwrap_err();
    let ErrorKind::IdxLineParseError { line_num, msg } = err;
    assert_eq!(line_num, 0);
    assert_eq!(msg, "expected four colon-separated number fields");
}

#[test]
fn oversized_timestamp_value_fails() {
    let err = IdxFile::parse("timestamp: 99999999999999999999:00:00:000\n").unwrap_err();
    let ErrorKind::IdxLineParseError { line_num, msg } = err;
    assert_eq!(line_num, 0);
    assert_eq!(msg, "timestamp value too large");
}

#[test]
fn no_two_adjacent_fillers_after_parse() {
    let text = "foo\ntimestamp: 00:00:01:000x\nbar";
    let doc = IdxFile::parse(text).unwrap();
    let parts = doc.parts();
    for w in parts.windows(2) {
        assert!(
            !(matches!(w[0], IdxFilePart::Filler(_)) && matches!(w[1], IdxFilePart::Filler(_)))
        );
    }
    assert_eq!(parts.len(), 3);
    assert_eq!(parts[0], IdxFilePart::Filler(b"foo\ntimestamp: ".to_vec()));
    assert_eq!(parts[1], IdxFilePart::Timestamp(TimePoint::from_msecs(1_000)));
    assert_eq!(parts[2], IdxFilePart::Filler(b"x\nbar".to_vec()));
}

#[test]
fn decode_reference_token() {
    let t = decode_timestamp(b"00:41:36:961").unwrap();
    assert_eq!(t.msecs(), 41 * 60_000 + 36 * 1_000 + 961);
}

#[test]
fn decode_rejects_wrong_field_count() {
    assert_eq!(decode_timestamp(b"00:41:36"), Err(DecodeFault::Shape));
    assert_eq!(decode_timestamp(b"00:41:36:961:7"), Err(DecodeFault::Shape));
    assert_eq!(decode_timestamp(b""), Err(DecodeFault::Shape));
    assert_eq!(decode_timestamp(b"0:0:0:"), Err(DecodeFault::Shape));
}

#[test]
fn decode_accepts_unreduced_fields() {
    // fields need not be in range, only numeric
    let t = decode_timestamp(b"0:99:0:0").unwrap();
    assert_eq!(t.msecs(), 99 * 60_000);
}

#[test]
fn encode_pads_fields() {
    assert_eq!(encode_timestamp(TimePoint::from_msecs(0)), b"00:00:00:000".to_vec());
    let t = TimePoint::from_components(100, 0, 0, 7);
    assert_eq!(encode_timestamp(t), b"100:00:00:007".to_vec());
}

#[test]
fn encode_decode_inverse_on_samples() {
    for ms in [0i64, 1, 999, 1_000, 59_999, 3_600_000, 86_399_999, 123_456_789] {
        let enc = encode_timestamp(TimePoint::from_msecs(ms));
        assert_eq!(decode_timestamp(&enc).unwrap().msecs(), ms);
    }
}

#[test]
fn time_components_reference_values() {
    let t = TimePoint::from_components(2, 3, 4, 5);
    assert_eq!(t.msecs(), 2 * 3_600_000 + 3 * 60_000 + 4 * 1_000 + 5);
    assert_eq!(t.hours(), 2);
    assert_eq!(t.mins_comp(), 3);
    assert_eq!(t.secs_comp(), 4);
    assert_eq!(t.msecs_comp(), 5);
    let d = TimeDelta::from_mins(1);
    assert_eq!(d.msecs(), 60_000);
    assert_eq!(t.plus(d).msecs(), t.msecs() + 60_000);
}

#[test]
fn bom_is_preserved_and_opaque() {
    let text = "\u{feff}timestamp: 00:00:01:000\n";
    let doc = IdxFile::parse(text).unwrap();
    assert_eq!(doc.get_subtitle_entries().len(), 1);
    assert_eq!(doc.to_data(), text.as_bytes().to_vec());
    match &doc.parts()[0] {
        IdxFilePart::Filler(f) => assert_eq!(&f[0..3], &[0xef, 0xbb, 0xbf]),
        IdxFilePart::Timestamp(_) => panic!("first part should hold the byte-order mark"),
    }
}

#[test]
fn unterminated_last_line_round_trips() {
    let text = "timestamp: 00:00:01:000";
    let doc = IdxFile::parse(text).unwrap();
    assert_eq!(doc.to_data(), text.as_bytes().to_vec());
}
