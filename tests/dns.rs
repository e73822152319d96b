use ping_dns::config::ExtractedInfo;
use ping_dns::fib::controlled_heavy_fibonacci;
use ping_dns::ipv4::{ipv4_to_text, parse_ipv4, Ipv4};
use ping_dns::name::{format_name_for_dns_packet, parse_qname_from_dns_packet, NameError};
use ping_dns::packet::{
    build_dns_response_packet, bytes_to_u16_be, parse_dns_query_packet, u16_to_bytes_be,
    u32_to_bytes_be, DnsError, DnsQueryInfo, DnsQuestion,
};
use ping_dns::table::{build_record_table, RecordTable};
use ping_dns::text::normalize_name;

fn info(tags: &[&str], ip: &str, port: i32) -> ExtractedInfo {
    ExtractedInfo {
        tags: tags.iter().map(|t| t.as_bytes().to_vec()).collect(),
        ip: ip.as_bytes().to_vec(),
        port,
    }
}

fn query(txid: u16, flags: u16, qd: u16, name: &[u8], qtype: u16, qclass: u16) -> Vec<u8> {
    let mut p = Vec::new();
    p.extend_from_slice(&txid.to_be_bytes());
    p.extend_from_slice(&flags.to_be_bytes());
    p.extend_from_slice(&qd.to_be_bytes());
    p.extend_from_slice(&[0, 0, 0, 0, 0, 0]);
    p.extend_from_slice(name);
    p.extend_from_slice(&qtype.to_be_bytes());
    p.extend_from_slice(&qclass.to_be_bytes());
    p
}

const SVC_A: &[u8] = &[5, b's', b'v', b'c', b'-', b'a', 0];

fn svc_a_table() -> RecordTable {
    build_record_table(&[info(&["svc-a"], "10.0.0.5", 80)])
}

fn respond(table: &RecordTable, packet: &[u8]) -> Vec<u8> {
    let q = parse_dns_query_packet(packet).unwrap();
    build_dns_response_packet(&q, table)
}

#[test]
fn scenario_a_query() {
    let table = svc_a_table();
    let r = respond(&table, &query(0x1234, 0x0100, 1, SVC_A, 1, 1));
    let mut expected = vec![0x12, 0x34, 0x84, 0x00, 0, 1, 0, 1, 0, 0, 0, 0];
    expected.extend_from_slice(SVC_A);
    expected.extend_from_slice(&[0, 1, 0, 1]);
    expected.extend_from_slice(SVC_A);
    expected.extend_from_slice(&[0, 1, 0, 1, 0, 0, 0, 60, 0, 4, 10, 0, 0, 5]);
    assert_eq!(r, expected);
}

#[test]
fn scenario_txt_query() {
    let table = svc_a_table();
    let r = respond(&table, &query(0x1234, 0x0100, 1, SVC_A, 16, 1));
    assert_eq!(&r[0..8], &[0x12, 0x34, 0x84, 0x00, 0, 1, 0, 1]);
    let answer = &r[12 + SVC_A.len() + 4..];
    assert_eq!(&answer[..SVC_A.len()], SVC_A);
    let rest = &answer[SVC_A.len()..];
    assert_eq!(&rest[0..8], &[0, 16, 0, 1, 0, 0, 0, 60]);
    assert_eq!(&rest[8..10], &[0, 12]);
    assert_eq!(rest[10], 11);
    assert_eq!(&rest[11..], b"10.0.0.5:80");
}

#[test]
fn scenario_unknown_name() {
    let table = svc_a_table();
    let name = [7, b'm', b'i', b's', b's', b'i', b'n', b'g', 0];
    let r = respond(&table, &query(0x0001, 0x0100, 1, &name, 1, 1));
    let mut expected = vec![0x00, 0x01, 0x84, 0x03, 0, 1, 0, 0, 0, 0, 0, 0];
    expected.extend_from_slice(&name);
    expected.extend_from_slice(&[0, 1, 0, 1]);
    assert_eq!(r, expected);
}

#[test]
fn scenario_case_and_trailing_dot() {
    let table = build_record_table(&[info(&["Svc-A"], "10.0.0.5", 80)]);
    let q = DnsQueryInfo {
        transaction_id: 0x1234,
        question: DnsQuestion { qname: b"SVC-A.".to_vec(), qtype: 1, qclass: 1 },
    };
    let r = build_dns_response_packet(&q, &table);
    let upper: &[u8] = &[5, b'S', b'V', b'C', b'-', b'A', 0];
    let mut expected = vec![0x12, 0x34, 0x84, 0x00, 0, 1, 0, 1, 0, 0, 0, 0];
    expected.extend_from_slice(upper);
    expected.extend_from_slice(&[0, 1, 0, 1]);
    expected.extend_from_slice(upper);
    expected.extend_from_slice(&[0, 1, 0, 1, 0, 0, 0, 60, 0, 4, 10, 0, 0, 5]);
    assert_eq!(r, expected);
    let r2 = respond(&table, &query(0x1234, 0x0100, 1, upper, 1, 1));
    assert_eq!(r2, expected);
}

#[test]
fn scenario_unsupported_qtype() {
    let table = svc_a_table();
    let r = respond(&table, &query(0x1234, 0x0100, 1, SVC_A, 28, 1));
    let mut expected = vec![0x12, 0x34, 0x84, 0x00, 0, 1, 0, 0, 0, 0, 0, 0];
    expected.extend_from_slice(SVC_A);
    expected.extend_from_slice(&[0, 28, 0, 1]);
    assert_eq!(r, expected);
}

#[test]
fn scenario_duplicate_tag_later_wins() {
    let table = build_record_table(&[info(&["svc-a"], "10.0.0.5", 80), info(&["svc-a"], "10.0.0.6", 80)]);
    let r = respond(&table, &query(0x1234, 0x0100, 1, SVC_A, 1, 1));
    assert_eq!(&r[r.len() - 4..], &[10, 0, 0, 6]);
    assert_eq!(table.get(b"svc-a"), Some((Ipv4 { a: 10, b: 0, c: 0, d: 6 }, 80)));
}

#[test]
fn table_skips_bad_ip_and_normalises_keys() {
    let table = build_record_table(&[
        info(&["bad"], "10.0.0", 1),
        info(&["Web.", "API"], "192.168.1.20", 8080),
        info(&["lead"], "01.2.3.4", 1),
    ]);
    assert_eq!(table.get(b"bad"), None);
    assert_eq!(table.get(b"lead"), None);
    let ip = Ipv4 { a: 192, b: 168, c: 1, d: 20 };
    assert_eq!(table.get(b"web"), Some((ip, 8080)));
    assert_eq!(table.get(b"api"), Some((ip, 8080)));
    assert_eq!(table.get(b"Web."), None);
    let mut keys = table.keys();
    keys.sort();
    assert_eq!(keys, vec![b"api".to_vec(), b"web".to_vec()]);
}

#[test]
fn table_port_narrows_to_16_bits() {
    let table = build_record_table(&[info(&["p"], "1.2.3.4", 70000), info(&["n"], "1.2.3.4", -1)]);
    assert_eq!(table.get(b"p").unwrap().1, 4464);
    assert_eq!(table.get(b"n").unwrap().1, 65535);
}

#[test]
fn add_info_reports_redefinitions() {
    let mut table = RecordTable::new();
    assert_eq!(table.add_info(&info(&["a", "b"], "1.1.1.1", 1)), Some(vec![false, false]));
    assert_eq!(table.add_info(&info(&["B", "c", "c."], "2.2.2.2", 2)), Some(vec![true, false, true]));
    assert_eq!(table.add_info(&info(&["a"], "nope", 3)), None);
    assert_eq!(table.get(b"a"), Some((Ipv4 { a: 1, b: 1, c: 1, d: 1 }, 1)));
    assert_eq!(table.get(b"b"), Some((Ipv4 { a: 2, b: 2, c: 2, d: 2 }, 2)));
}

#[test]
fn ipv4_parsing() {
    assert_eq!(parse_ipv4(b"10.0.0.5"), Some(Ipv4 { a: 10, b: 0, c: 0, d: 5 }));
    assert_eq!(parse_ipv4(b"255.255.255.255"), Some(Ipv4 { a: 255, b: 255, c: 255, d: 255 }));
    assert_eq!(parse_ipv4(b"0.0.0.0"), Some(Ipv4 { a: 0, b: 0, c: 0, d: 0 }));
    for bad in [&b"256.0.0.1"[..], b"1.2.3", b"1.2.3.4.5", b"01.2.3.4", b"1.2.3.4 ", b"", b"a.b.c.d", b"1..2.3", b"1000.1.1.1"] {
        assert_eq!(parse_ipv4(bad), None);
    }
    assert_eq!(ipv4_to_text(Ipv4 { a: 192, b: 168, c: 0, d: 10 }), b"192.168.0.10".to_vec());
}

#[test]
fn normalisation() {
    assert_eq!(normalize_name(b"SVC-A."), b"svc-a".to_vec());
    assert_eq!(normalize_name(b"a.."), b"a.".to_vec());
    assert_eq!(normalize_name(b"."), b"".to_vec());
    assert_eq!(normalize_name(b"\xc3\x89x"), b"\xc3\x89x".to_vec());
}

#[test]
fn name_encoding() {
    assert_eq!(format_name_for_dns_packet(b"."), vec![0]);
    assert_eq!(format_name_for_dns_packet(b""), vec![0]);
    assert_eq!(format_name_for_dns_packet(b"a.bc"), vec![1, b'a', 2, b'b', b'c', 0]);
    assert_eq!(format_name_for_dns_packet(b"a..bc."), vec![1, b'a', 2, b'b', b'c', 0]);
}

#[test]
fn name_decoding() {
    let p = [9u8, 1, b'a', 2, b'b', b'c', 0, 7];
    assert_eq!(parse_qname_from_dns_packet(&p, 1), Ok((b"a.bc".to_vec(), 6)));
    assert_eq!(parse_qname_from_dns_packet(&[0], 0), Ok((b".".to_vec(), 1)));
    assert_eq!(parse_qname_from_dns_packet(&[0xc0, 0x0c], 0), Err(NameError::CompressionPointer));
    assert_eq!(parse_qname_from_dns_packet(&[64], 0), Err(NameError::LabelTooLong));
    assert_eq!(parse_qname_from_dns_packet(&[3, b'a'], 0), Err(NameError::Truncated));
    assert_eq!(parse_qname_from_dns_packet(&[1, b'a'], 0), Err(NameError::Truncated));
    assert_eq!(parse_qname_from_dns_packet(&[1, b'a'], 5), Err(NameError::Truncated));
    assert_eq!(parse_qname_from_dns_packet(&[1, 0xff, 0], 0), Err(NameError::InvalidUtf8));
}

#[test]
fn query_parse_errors() {
    assert_eq!(parse_dns_query_packet(&[0; 11]).unwrap_err(), DnsError::TooShort);
    assert_eq!(parse_dns_query_packet(&query(1, 0x8100, 1, SVC_A, 1, 1)).unwrap_err(), DnsError::NotAQuery);
    assert_eq!(
        parse_dns_query_packet(&query(1, 0x1000, 1, SVC_A, 1, 1)).unwrap_err(),
        DnsError::UnsupportedOpcode(2)
    );
    assert_eq!(parse_dns_query_packet(&query(1, 0, 0, SVC_A, 1, 1)).unwrap_err(), DnsError::NoQuestion);
    assert_eq!(parse_dns_query_packet(&query(1, 0, 2, SVC_A, 1, 1)).unwrap_err(), DnsError::MultipleQuestions);
    assert_eq!(
        parse_dns_query_packet(&query(1, 0, 1, &[0xc0, 0x0c], 1, 1)).unwrap_err(),
        DnsError::BadName(NameError::CompressionPointer)
    );
    let mut short = query(1, 0, 1, SVC_A, 1, 1);
    short.truncate(short.len() - 1);
    assert_eq!(parse_dns_query_packet(&short).unwrap_err(), DnsError::MissingTypeClass);
    assert_eq!(
        parse_dns_query_packet(&query(1, 0, 1, SVC_A, 1, 3)).unwrap_err(),
        DnsError::UnsupportedClass(3)
    );
}

#[test]
fn query_parse_success() {
    let q = parse_dns_query_packet(&query(0xbeef, 0x0100, 1, SVC_A, 16, 1)).unwrap();
    assert_eq!(q.transaction_id, 0xbeef);
    assert_eq!(q.question.qname, b"svc-a".to_vec());
    assert_eq!(q.question.qtype, 16);
    assert_eq!(q.question.qclass, 1);
    let root = parse_dns_query_packet(&query(1, 0, 1, &[0], 1, 1)).unwrap();
    assert_eq!(root.question.qname, b".".to_vec());
}

#[test]
fn response_question_reparses_to_same_question() {
    let table = svc_a_table();
    let name = [3, b'w', b'w', b'w', 5, b'S', b'v', b'c', b'-', b'A', 0];
    let packet = query(0x4242, 0x0100, 1, &name, 16, 1);
    let q = parse_dns_query_packet(&packet).unwrap();
    let r = build_dns_response_packet(&q, &table);
    let section = &r[12..12 + name.len() + 4];
    let mut again = vec![0x77, 0x77, 0, 0, 0, 1, 0, 0, 0, 0, 0, 0];
    again.extend_from_slice(section);
    let q2 = parse_dns_query_packet(&again).unwrap();
    assert_eq!(q2.transaction_id, 0x7777);
    assert_eq!(q2.question.qname, q.question.qname);
    assert_eq!(q2.question.qtype, q.question.qtype);
    assert_eq!(q2.question.qclass, q.question.qclass);
    assert_eq!(&r[2..4], &[0x84, 0x03]);
}

#[test]
fn byte_helpers() {
    assert_eq!(u16_to_bytes_be(0x1234), [0x12, 0x34]);
    assert_eq!(u32_to_bytes_be(0x0102_0304), [1, 2, 3, 4]);
    assert_eq!(bytes_to_u16_be(&[0xab, 0xcd, 0xef]), Ok(0xabcd));
    assert_eq!(bytes_to_u16_be(&[0xab]), Err(DnsError::TooShort));
}

#[test]
fn fibonacci_values() {
    assert_eq!(controlled_heavy_fibonacci(0), 0);
    assert_eq!(controlled_heavy_fibonacci(1), 1);
    assert_eq!(controlled_heavy_fibonacci(10), 55);
    assert_eq!(controlled_heavy_fibonacci(20), 6765);
}
