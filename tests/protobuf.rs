use ping_dns::config::{
    parse_configuration_file_proto, parse_instance_message_proto, parse_network_resolution_message_proto,
    parse_uri_message_proto, parse_uri_slot_message_proto, ExtractedInfo,
};
use ping_dns::varint::{read_length_delimited, read_tag, read_varint, skip_field, DecodeError};

fn varint(mut v: u64) -> Vec<u8> {
    let mut out = Vec::new();
    loop {
        if v < 128 {
            out.push(v as u8);
            return out;
        }
        out.push((v % 128) as u8 | 0x80);
        v /= 128;
    }
}

fn field_bytes(field: u64, body: &[u8]) -> Vec<u8> {
    let mut out = varint(field << 3 | 2);
    out.extend(varint(body.len() as u64));
    out.extend_from_slice(body);
    out
}

fn field_varint(field: u64, v: u64) -> Vec<u8> {
    let mut out = varint(field << 3);
    out.extend(varint(v));
    out
}

fn uri(ip: Option<&str>, port: Option<u64>) -> Vec<u8> {
    let mut out = Vec::new();
    if let Some(ip) = ip {
        out.extend(field_bytes(1, ip.as_bytes()));
    }
    if let Some(p) = port {
        out.extend(field_varint(2, p));
    }
    out
}

fn resolution(tags: &[&str], uris: &[Vec<u8>]) -> Vec<u8> {
    let mut slot = field_varint(1, 8080);
    for u in uris {
        slot.extend(field_bytes(2, u));
    }
    let mut instance = field_bytes(1, b"\x08\x01");
    instance.extend(field_bytes(2, &slot));
    let mut out = Vec::new();
    for t in tags {
        out.extend(field_bytes(1, t.as_bytes()));
    }
    out.extend(field_bytes(2, &instance));
    out
}

fn config(resolutions: &[Vec<u8>]) -> Vec<u8> {
    let mut out = field_bytes(1, b"gateway");
    out.extend(field_varint(2, 7));
    for r in resolutions {
        out.extend(field_bytes(3, r));
    }
    out.extend(field_bytes(4, b"sys"));
    out
}

fn strings(v: &[Vec<u8>]) -> Vec<String> {
    v.iter().map(|t| String::from_utf8(t.clone()).unwrap()).collect()
}

fn summary(info: &ExtractedInfo) -> (Vec<String>, String, i32) {
    (strings(&info.tags), String::from_utf8(info.ip.clone()).unwrap(), info.port)
}

#[test]
fn varint_single_and_multi_byte() {
    let mut b: &[u8] = &[0x01, 0xff];
    assert_eq!(read_varint(&mut b), Ok(1));
    assert_eq!(b, &[0xff]);
    let mut b: &[u8] = &[0x96, 0x01, 0x05];
    assert_eq!(read_varint(&mut b), Ok(150));
    assert_eq!(b, &[0x05]);
}

#[test]
fn varint_round_trips_on_samples() {
    for v in [0u64, 1, 127, 128, 300, 16_384, u32::MAX as u64, u64::MAX - 1, u64::MAX] {
        let enc = varint(v);
        let mut b: &[u8] = &enc;
        assert_eq!(read_varint(&mut b), Ok(v));
        assert!(b.is_empty());
    }
}

#[test]
fn varint_ten_continuation_bytes_fail() {
    let bytes = [0x80u8; 11];
    let mut b: &[u8] = &bytes;
    assert_eq!(read_varint(&mut b), Err(DecodeError::VarintTooLong));
    let bytes = [0xffu8; 10];
    let mut b: &[u8] = &bytes;
    assert_eq!(read_varint(&mut b), Err(DecodeError::Truncated));
}

#[test]
fn varint_truncated_and_empty() {
    let mut b: &[u8] = &[0x80, 0x80];
    assert_eq!(read_varint(&mut b), Err(DecodeError::Truncated));
    let mut b: &[u8] = &[];
    assert_eq!(read_varint(&mut b), Err(DecodeError::Truncated));
}

#[test]
fn varint_tenth_byte_keeps_low_bit_only() {
    let mut bytes = vec![0x80u8; 9];
    bytes.push(0x03);
    let mut b: &[u8] = &bytes;
    assert_eq!(read_varint(&mut b), Ok(1u64 << 63));
}

#[test]
fn tag_splits_field_and_wire_type() {
    let mut b: &[u8] = &[0x1a, 0x00];
    assert_eq!(read_tag(&mut b), Ok((3, 2)));
    assert_eq!(b, &[0x00]);
    let mut b: &[u8] = &[0x07];
    assert_eq!(read_tag(&mut b), Err(DecodeError::FieldNumberZero));
}

#[test]
fn length_delimited_reads_exact_slice() {
    let mut b: &[u8] = &[0x03, b'a', b'b', b'c', b'd'];
    assert_eq!(read_length_delimited(&mut b), Ok(&b"abc"[..]));
    assert_eq!(b, b"d");
    let mut b: &[u8] = &[0x05, b'a', b'b'];
    assert_eq!(read_length_delimited(&mut b), Err(DecodeError::LengthOverrun));
}

#[test]
fn skip_field_by_wire_type() {
    let mut b: &[u8] = &[0xac, 0x02, 0x09];
    assert_eq!(skip_field(&mut b, 0), Ok(()));
    assert_eq!(b, &[0x09]);
    let bytes = [1u8, 2, 3, 4, 5, 6, 7, 8, 9];
    let mut b: &[u8] = &bytes;
    assert_eq!(skip_field(&mut b, 1), Ok(()));
    assert_eq!(b, &[9]);
    let mut b: &[u8] = &[0x02, 0xaa, 0xbb, 0xcc];
    assert_eq!(skip_field(&mut b, 2), Ok(()));
    assert_eq!(b, &[0xcc]);
    let mut b: &[u8] = &[1, 2, 3, 4, 5];
    assert_eq!(skip_field(&mut b, 5), Ok(()));
    assert_eq!(b, &[5]);
}

#[test]
fn skip_field_errors() {
    let mut b: &[u8] = &[1, 2, 3];
    assert_eq!(skip_field(&mut b, 1), Err(DecodeError::FixedOverrun));
    let mut b: &[u8] = &[1, 2, 3];
    assert_eq!(skip_field(&mut b, 5), Err(DecodeError::FixedOverrun));
    let mut b: &[u8] = &[0x09, 1];
    assert_eq!(skip_field(&mut b, 2), Err(DecodeError::LengthOverrun));
    let mut b: &[u8] = &[0];
    assert_eq!(skip_field(&mut b, 3), Err(DecodeError::GroupNotSupported));
    let mut b: &[u8] = &[0];
    assert_eq!(skip_field(&mut b, 4), Err(DecodeError::GroupNotSupported));
    let mut b: &[u8] = &[0];
    assert_eq!(skip_field(&mut b, 6), Err(DecodeError::UnknownWireType(6)));
}

#[test]
fn empty_config_has_no_entries() {
    let r = parse_configuration_file_proto(&[]).unwrap();
    assert!(r.is_empty());
}

#[test]
fn config_walk_extracts_nested_uris() {
    let cfg = config(&[
        resolution(&["svc-a", "alias"], &[uri(Some("10.0.0.5"), Some(80)), uri(Some("10.0.0.6"), Some(81))]),
        resolution(&["svc-b"], &[uri(Some("10.0.0.7"), Some(443))]),
    ]);
    let r = parse_configuration_file_proto(&cfg).unwrap();
    assert_eq!(r.len(), 3);
    assert_eq!(
        summary(&r[0]),
        (vec!["svc-a".to_string(), "alias".to_string()], "10.0.0.5".to_string(), 80)
    );
    assert_eq!(
        summary(&r[1]),
        (vec!["svc-a".to_string(), "alias".to_string()], "10.0.0.6".to_string(), 81)
    );
    assert_eq!(summary(&r[2]), (vec!["svc-b".to_string()], "10.0.0.7".to_string(), 443));
}

#[test]
fn uri_missing_ip_or_port_yields_nothing() {
    let cfg = config(&[resolution(
        &["svc-a"],
        &[uri(Some("10.0.0.5"), None), uri(None, Some(80)), uri(Some("10.0.0.9"), Some(9))],
    )]);
    let r = parse_configuration_file_proto(&cfg).unwrap();
    assert_eq!(r.len(), 1);
    assert_eq!(summary(&r[0]), (vec!["svc-a".to_string()], "10.0.0.9".to_string(), 9));
}

#[test]
fn resolution_without_tags_is_ignored() {
    let cfg = config(&[resolution(&[], &[uri(Some("10.0.0.5"), Some(80))])]);
    let r = parse_configuration_file_proto(&cfg).unwrap();
    assert!(r.is_empty());
}

#[test]
fn port_is_cast_to_signed_32_bits() {
    let cfg = config(&[resolution(&["svc-a"], &[uri(Some("10.0.0.5"), Some(u64::MAX))])]);
    let r = parse_configuration_file_proto(&cfg).unwrap();
    assert_eq!(r[0].port, -1);
}

#[test]
fn config_wrong_wire_type_is_an_error() {
    let cfg = field_varint(3, 5);
    assert_eq!(parse_configuration_file_proto(&cfg).unwrap_err(), DecodeError::WrongWireType);
    let cfg = config(&[field_varint(1, 5)]);
    assert_eq!(parse_configuration_file_proto(&cfg).unwrap_err(), DecodeError::WrongWireType);
}

#[test]
fn config_invalid_utf8_tag_is_an_error() {
    let mut res = field_bytes(1, &[0xff, 0xfe]);
    res.extend(field_bytes(2, &[]));
    let cfg = config(&[res]);
    assert_eq!(parse_configuration_file_proto(&cfg).unwrap_err(), DecodeError::InvalidUtf8);
}

#[test]
fn config_truncated_field_is_an_error() {
    let cfg = vec![0x1a, 0x10, 0x0a];
    assert_eq!(parse_configuration_file_proto(&cfg).unwrap_err(), DecodeError::LengthOverrun);
    let cfg = vec![0x0b];
    assert_eq!(parse_configuration_file_proto(&cfg).unwrap_err(), DecodeError::GroupNotSupported);
}

#[test]
fn failed_skip_leaves_buffer_in_place() {
    for (bytes, wire) in [
        (&[1u8, 2, 3][..], 1u32),
        (&[1u8, 2, 3][..], 5),
        (&[0x09u8, 1][..], 2),
        (&[0x80u8][..], 0),
        (&[0u8][..], 3),
        (&[0u8][..], 4),
        (&[0u8][..], 7),
    ] {
        let mut b: &[u8] = bytes;
        assert!(skip_field(&mut b, wire).is_err());
        assert_eq!(b, bytes);
    }
    let mut b: &[u8] = &[0x05, b'a'];
    assert!(read_length_delimited(&mut b).is_err());
    assert_eq!(b, &[0x05, b'a']);
    let mut b: &[u8] = &[0x07, 0x01];
    assert!(read_tag(&mut b).is_err());
    assert_eq!(b, &[0x07, 0x01]);
}

#[test]
fn failed_walk_leaves_results_unchanged() {
    let mut results = vec![ExtractedInfo { tags: vec![b"keep".to_vec()], ip: b"1.1.1.1".to_vec(), port: 1 }];
    let tags = vec![b"t".to_vec()];
    assert_eq!(
        parse_instance_message_proto(&[0x08, 0x96, 0x01, 0x10, 0x01], &tags, &mut results),
        Err(DecodeError::WrongWireType)
    );
    assert_eq!(results.len(), 1);
    let mut slot = field_bytes(2, &uri(Some("10.0.0.5"), Some(80)));
    slot.extend(field_bytes(1, b"x"));
    assert_eq!(parse_uri_slot_message_proto(&slot, &tags, &mut results), Err(DecodeError::WrongWireType));
    assert_eq!(results.len(), 1);
    let mut u = uri(Some("10.0.0.5"), Some(80));
    u.push(0x1b);
    assert_eq!(parse_uri_message_proto(&u, &tags, &mut results), Err(DecodeError::GroupNotSupported));
    assert_eq!(results.len(), 1);
    let mut res = resolution(&["svc"], &[uri(Some("10.0.0.5"), Some(80))]);
    res.extend(field_varint(1, 3));
    assert_eq!(parse_network_resolution_message_proto(&res, &mut results), Err(DecodeError::WrongWireType));
    assert_eq!(results.len(), 1);
    assert_eq!(summary(&results[0]), (vec!["keep".to_string()], "1.1.1.1".to_string(), 1));
}
