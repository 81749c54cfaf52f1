use stavka::cachestate::{
    LoadedCoverageMap, MetaDecodeError, ObjectMeta, ObjectMetaPreamble, ObjectMetaVersion,
};

fn preamble(headers: Vec<(&str, &str)>) -> ObjectMetaPreamble {
    ObjectMetaPreamble {
        exp_ts: 0x0102030405060708,
        size_bytes: 10240,
        block_size: 1024,
        headers: headers.into_iter().map(|(n, v)| (n.to_string(), v.to_string())).collect(),
    }
}

fn serialize(p: ObjectMetaPreamble) -> Vec<u8> {
    ObjectMeta { preamble: p, coverage_map_offset: 0, coverage_map: LoadedCoverageMap(vec![]) }
        .serialize_preamble()
}

#[test]
fn serialize_layout() {
    let bytes = serialize(preamble(vec![("ab", "c")]));
    let expected: Vec<u8> = vec![
        0, 8, 7, 6, 5, 4, 3, 2, 1, 0, 40, 0, 0, 0, 0, 0, 0, 0, 4, 0, 0, 1, 0, 2, 0, b'a', b'b',
        1, 0, b'c',
    ];
    assert_eq!(bytes, expected);
}

#[test]
fn serialize_without_headers_is_fixed_length() {
    assert_eq!(serialize(preamble(vec![])).len(), 23);
}

#[test]
fn round_trip_with_coverage() {
    let headers = vec![("content-type", "video/mp4"), ("etag", "\"x\u{e9}\"")];
    let mut bytes = serialize(preamble(headers.clone()));
    let preamble_len = bytes.len();
    bytes.extend_from_slice(&[1, 0, 1, 1, 0]);
    let meta = ObjectMeta::from_bytes(&bytes).unwrap();
    assert_eq!(meta.preamble.exp_ts, 0x0102030405060708);
    assert_eq!(meta.preamble.size_bytes, 10240);
    assert_eq!(meta.preamble.block_size, 1024);
    let got: Vec<(&str, &str)> =
        meta.preamble.headers.iter().map(|(n, v)| (n.as_str(), v.as_str())).collect();
    assert_eq!(got, headers);
    assert_eq!(meta.coverage_map_offset, preamble_len as u64);
    assert_eq!(meta.coverage_map.0, vec![true, false, true, true, false]);
}

#[test]
fn deserialize_reports_version_and_offset() {
    let bytes = serialize(preamble(vec![("k", "v")]));
    let (p, v, off) = ObjectMeta::deserialize_preamble(&bytes).unwrap();
    assert_eq!(v, ObjectMetaVersion::V0);
    assert_eq!(off, 29);
    assert_eq!(p.headers, vec![("k".to_string(), "v".to_string())]);
}

#[test]
fn empty_buffer_is_too_short() {
    assert_eq!(ObjectMeta::deserialize_preamble(&[]).err(), Some(MetaDecodeError::TooShort));
}

#[test]
fn unknown_version_fails() {
    let mut bytes = serialize(preamble(vec![]));
    bytes[0] = 1;
    assert_eq!(ObjectMeta::from_bytes(&bytes).err(), Some(MetaDecodeError::InvalidVersion));
}

#[test]
fn cut_fixed_fields_are_too_short() {
    let bytes = serialize(preamble(vec![]));
    assert_eq!(ObjectMeta::from_bytes(&bytes[..22]).err(), Some(MetaDecodeError::TooShort));
}

#[test]
fn invalid_utf8_name_fails() {
    let mut bytes = serialize(preamble(vec![("ab", "c")]));
    bytes[25] = 0xff;
    assert_eq!(ObjectMeta::from_bytes(&bytes).err(), Some(MetaDecodeError::InvalidUtf8));
}

#[test]
fn invalid_utf8_value_fails() {
    let mut bytes = serialize(preamble(vec![("ab", "c")]));
    bytes[29] = 0xc3;
    assert_eq!(ObjectMeta::from_bytes(&bytes).err(), Some(MetaDecodeError::InvalidUtf8));
}

#[test]
fn cut_header_value_fails() {
    let bytes = serialize(preamble(vec![("ab", "cde")]));
    assert_eq!(
        ObjectMeta::from_bytes(&bytes[..bytes.len() - 1]).err(),
        Some(MetaDecodeError::TruncatedHeaderValue)
    );
    assert_eq!(
        ObjectMeta::from_bytes(&bytes[..28]).err(),
        Some(MetaDecodeError::TruncatedHeaderValue)
    );
}

#[test]
fn overlong_name_ends_headers() {
    // One header announced, but its name length runs past the buffer: no headers,
    // and the coverage map begins where that header would have begun.
    let mut bytes = serialize(preamble(vec![]));
    bytes[21] = 1;
    bytes.extend_from_slice(&[200, 0, 1, 0, 1]);
    let meta = ObjectMeta::from_bytes(&bytes).unwrap();
    assert!(meta.preamble.headers.is_empty());
    assert_eq!(meta.coverage_map_offset, 23);
    assert_eq!(meta.coverage_map.0, vec![false, false, true, false, true]);
}

#[test]
fn single_byte_after_count_is_coverage() {
    let mut bytes = serialize(preamble(vec![]));
    bytes[21] = 3;
    bytes.push(1);
    let meta = ObjectMeta::from_bytes(&bytes).unwrap();
    assert!(meta.preamble.headers.is_empty());
    assert_eq!(meta.coverage_map_offset, 23);
    assert_eq!(meta.coverage_map.0, vec![true]);
}

#[test]
fn version_byte() {
    assert_eq!(ObjectMetaVersion::from_u8(0), Some(ObjectMetaVersion::V0));
    assert_eq!(ObjectMetaVersion::from_u8(7), None);
}

#[test]
fn coverage_lookup_and_mark() {
    let mut bytes = serialize(preamble(vec![]));
    bytes.extend_from_slice(&[0, 1, 0]);
    let mut meta = ObjectMeta::from_bytes(&bytes).unwrap();
    assert!(!meta.coverage_map.is_covered(0));
    assert!(meta.coverage_map.is_covered(1));
    assert_eq!(meta.coverage_byte_offset(2), Some(25));
    assert_eq!(meta.coverage_byte_offset(3), None);
    meta.mark_covered(2);
    assert_eq!(meta.coverage_map.0, vec![false, true, true]);
    meta.coverage_map.mark_covered(0);
    assert!(meta.coverage_map.is_covered(0));
}

#[test]
fn serializable_limits() {
    assert!(preamble(vec![("a", "b")]).is_serializable());
    let long = "x".repeat(65536);
    assert!(!preamble(vec![("a", long.as_str())]).is_serializable());
    let max = "y".repeat(65535);
    let p = preamble(vec![(max.as_str(), "")]);
    assert!(p.is_serializable());
    assert_eq!(serialize(p).len(), 23 + 4 + 65535);
}
