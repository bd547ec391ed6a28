use landsurvey::xdata::{
    commit_blobs, decode_record, decode_string, decode_value, encode_record, encode_string, encode_value,
    hydrate_records, is_ls_app, XRecord, XValue, XDATA_PLAN, XDATA_POINT, XDATA_SURFACE,
};

fn point_record(number: &str, description: &str) -> XRecord {
    XRecord {
        application_name: XDATA_POINT.to_string(),
        values: vec![XValue::Text(number.to_string()), XValue::Text(description.to_string())],
    }
}

fn texts(rec: &XRecord) -> Vec<String> {
    rec.values
        .iter()
        .filter_map(|v| match v {
            XValue::Text(s) => Some(s.clone()),
            _ => None,
        })
        .collect()
}

fn app_ids() -> Vec<(String, u64)> {
    vec![
        (XDATA_POINT.to_string(), 0x21),
        (XDATA_PLAN.to_string(), 0x22),
        (XDATA_SURFACE.to_string(), 0x23),
    ]
}

#[test]
fn encode_decode_roundtrip_wide_and_narrow() {
    let rec = point_record("101", "IRON PIN, NE corner");
    for wide in [true, false] {
        let bytes = encode_record(&rec, wide);
        let back = decode_record(XDATA_POINT, &bytes, wide).expect("decode");
        assert_eq!(texts(&back), vec!["101", "IRON PIN, NE corner"]);
    }
}

#[test]
fn commit_reports_change_only_when_bytes_differ() {
    let records = vec![point_record("7", "REBAR")];
    let (first, changed) = commit_blobs(&Vec::new(), &records, &app_ids(), true);
    assert!(changed, "first commit encodes new bytes");
    let (second, changed_again) = commit_blobs(&first, &records, &app_ids(), true);
    assert!(!changed_again, "second commit with no edits must be a no-op");
    assert_eq!(first, second);
}

#[test]
fn commit_preserves_foreign_app_blobs() {
    let foreign = (0xDEAD_u64, vec![1u8, 2, 3]);
    let raw = vec![foreign.clone()];
    let records = vec![point_record("9", "HUB")];
    let (next, _) = commit_blobs(&raw, &records, &app_ids(), false);
    assert!(next.contains(&foreign), "foreign EED blob must be preserved");
    assert_eq!(next.len(), 2);
    assert_eq!(next[1].0, 0x21);
}

#[test]
fn commit_replaces_stale_land_survey_blob() {
    let stale = (0x21_u64, vec![0u8, 1, 0, 0, 65]);
    let records = vec![point_record("1", "CP")];
    let (next, changed) = commit_blobs(&vec![stale.clone()], &records, &app_ids(), false);
    assert!(changed);
    assert!(!next.contains(&stale));
    assert_eq!(next, vec![(0x21, encode_record(&records[0], false))]);
}

#[test]
fn hydrate_recovers_committed_records() {
    let records = vec![point_record("101", "IRON PIN")];
    for wide in [true, false] {
        let (raw, _) = commit_blobs(&Vec::new(), &records, &app_ids(), wide);
        let back = hydrate_records(&raw, &Vec::new(), &app_ids(), wide);
        assert_eq!(back.len(), 1);
        assert_eq!(back[0].application_name, XDATA_POINT);
        assert_eq!(texts(&back[0]), vec!["101", "IRON PIN"]);
        // A record the entity already carries is not added twice.
        let again = hydrate_records(&raw, &vec![XDATA_POINT.to_string()], &app_ids(), wide);
        assert!(again.is_empty());
    }
}

#[test]
fn hydrate_ignores_foreign_blobs() {
    let raw = vec![(0xDEAD_u64, vec![0u8, 1, 0, 0, 65])];
    assert!(hydrate_records(&raw, &Vec::new(), &app_ids(), false).is_empty());
}

#[test]
fn narrow_string_layout_is_length_codepage_bytes() {
    assert_eq!(encode_string("AB", false), vec![0, 2, 0, 0, b'A', b'B']);
    assert_eq!(encode_string("", false), vec![0, 0, 0, 0]);
}

#[test]
fn wide_string_layout_is_utf16_units() {
    assert_eq!(encode_string("A\u{b0}", true), vec![0, 2, 0, 0x41, 0, 0xb0, 0]);
}

#[test]
fn narrow_string_is_cut_at_255_bytes() {
    let long = "x".repeat(300);
    let bytes = encode_string(&long, false);
    assert_eq!(bytes.len(), 4 + 255);
    assert_eq!(bytes[1], 255);
    // The string starts after its value code.
    let mut i = 1usize;
    let back = decode_string(&bytes, &mut i, false).expect("decode");
    assert_eq!(back, "x".repeat(255));
    assert_eq!(i, bytes.len());
}

#[test]
fn decode_string_rejects_truncated_input() {
    let mut i = 1usize;
    assert!(decode_string(&[0, 5, 0, 0, b'a'], &mut i, false).is_none());
    let mut j = 1usize;
    assert!(decode_string(&[0, 2, 0, 0x41], &mut j, true).is_none());
}

#[test]
fn value_codes_and_payloads() {
    assert_eq!(encode_value(&XValue::ControlString("}".to_string()), true), vec![2, 1]);
    assert_eq!(encode_value(&XValue::ControlString("{".to_string()), true), vec![2, 0]);
    assert_eq!(encode_value(&XValue::Handle(0x0102), false), vec![5, 2, 1, 0, 0, 0, 0, 0, 0]);
    assert_eq!(encode_value(&XValue::Integer16(-2), false), vec![70, 0xfe, 0xff]);
    assert_eq!(encode_value(&XValue::BinaryData(vec![9, 8]), false), vec![4, 2, 9, 8]);
    let one = 1.0f64.to_bits();
    let b = encode_value(&XValue::Real(one), false);
    assert_eq!(b[0], 40);
    assert_eq!(&b[1..], &1.0f64.to_le_bytes());
}

#[test]
fn every_value_kind_round_trips() {
    let rec = XRecord {
        application_name: XDATA_SURFACE.to_string(),
        values: vec![
            XValue::Text("EG".to_string()),
            XValue::ControlString("{".to_string()),
            XValue::ControlString("}".to_string()),
            XValue::BinaryData(vec![1, 2, 3]),
            XValue::Handle(0xABCD),
            XValue::Point3D(1.5f64.to_bits(), 2.5f64.to_bits(), 3.5f64.to_bits()),
            XValue::Direction3D(0, 1, 2),
            XValue::Distance(12.25f64.to_bits()),
            XValue::Integer16(-7),
            XValue::Integer32(123456),
        ],
    };
    let bytes = encode_record(&rec, true);
    let back = decode_record(XDATA_SURFACE, &bytes, true).expect("decode");
    assert_eq!(back.values.len(), rec.values.len());
    match &back.values[4] {
        XValue::Handle(h) => assert_eq!(*h, 0xABCD),
        _ => panic!("handle expected"),
    }
    match &back.values[5] {
        XValue::Point3D(x, y, z) => {
            assert_eq!(f64::from_bits(*x), 1.5);
            assert_eq!(f64::from_bits(*y), 2.5);
            assert_eq!(f64::from_bits(*z), 3.5);
        }
        _ => panic!("point expected"),
    }
    match &back.values[9] {
        XValue::Integer32(v) => assert_eq!(*v, 123456),
        _ => panic!("integer expected"),
    }
}

#[test]
fn layer_name_reads_back_as_text() {
    let rec = XRecord {
        application_name: XDATA_PLAN.to_string(),
        values: vec![XValue::LayerName("LS-PT".to_string())],
    };
    let back = decode_record(XDATA_PLAN, &encode_record(&rec, false), false).expect("decode");
    assert_eq!(texts(&back), vec!["LS-PT"]);
}

#[test]
fn decode_record_rejects_unknown_code() {
    assert!(decode_record(XDATA_POINT, &[99], true).is_none());
}

#[test]
fn land_survey_applications() {
    assert!(is_ls_app("LANDSURVEY_POINT"));
    assert!(is_ls_app("LANDSURVEY_PLAN"));
    assert!(is_ls_app("LANDSURVEY_SURFACE"));
    assert!(!is_ls_app("landsurvey_point"));
    assert!(!is_ls_app("HYDRO"));
}

#[test]
fn narrow_invalid_utf8_decodes_lossily() {
    let bytes = [0u8, 2, 0, 0, 0xff, b'a'];
    let mut i = 1usize;
    assert_eq!(decode_string(&bytes, &mut i, false).as_deref(), Some("\u{FFFD}a"));
    assert_eq!(i, bytes.len());
}

#[test]
fn wide_unpaired_surrogate_is_rejected() {
    let bytes = [0u8, 1, 0, 0x00, 0xd8];
    let mut i = 1usize;
    assert!(decode_string(&bytes, &mut i, true).is_none());
}

#[test]
fn failed_decoding_leaves_the_cursor_where_the_bytes_ran_out() {
    // Narrow string: the length byte and code page are taken before the
    // missing bytes are found.
    let mut i = 0usize;
    assert!(decode_value(&[0, 5, 0, 0, b'a'], &mut i, false).is_none());
    assert_eq!(i, 4);
    // Wide string: every whole code unit there is room for is taken.
    let mut i = 0usize;
    assert!(decode_value(&[0, 3, 0, 0x41, 0, 0x42, 0, 7], &mut i, true).is_none());
    assert_eq!(i, 7);
    // A 3-D point with only its x present.
    let mut bytes = vec![10u8];
    bytes.extend_from_slice(&[0u8; 12]);
    let mut i = 0usize;
    assert!(decode_value(&bytes, &mut i, false).is_none());
    assert_eq!(i, 9);
    // Binary data: the length byte is taken.
    let mut i = 0usize;
    assert!(decode_value(&[4, 9, 1], &mut i, false).is_none());
    assert_eq!(i, 2);
    // An unknown code is taken.
    let mut i = 0usize;
    assert!(decode_value(&[99, 1, 2], &mut i, false).is_none());
    assert_eq!(i, 1);
    // Nothing to read: the cursor stays.
    let mut i = 3usize;
    assert!(decode_value(&[0, 1, 2], &mut i, false).is_none());
    assert_eq!(i, 3);
}
