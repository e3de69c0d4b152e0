use std::collections::HashSet;

use conntracker::codec::{decode_ipv4, decode_ipv6, encode_ipv4, encode_ipv6, IpAddress};
use conntracker::config::{has_output_target, parse_port_list};
use conntracker::snapshot::{aggregate, capture};
use conntracker::table::{parse_row, scan_source, scan_table, PortMap};

fn port_set(ports: &[u16]) -> HashSet<u16> {
    ports.iter().copied().collect()
}

fn text_of(chars: Vec<char>) -> String {
    chars.into_iter().collect()
}

const HEADER: &str = "  sl  local_address rem_address   st tx_queue rx_queue tr tm->when retrnsmt   uid  timeout inode";

#[test]
fn ipv4_is_read_little_endian() {
    assert_eq!(decode_ipv4("01020304"), Some(IpAddress::V4(0x04030201)));
    assert_eq!(decode_ipv4("0100007F"), Some(IpAddress::V4(0x7F000001)));
    assert_eq!(decode_ipv4("0100007f"), Some(IpAddress::V4(0x7F000001)));
}

#[test]
fn ipv4_round_trip() {
    for a in [0u32, 1, 0x7F000001, 0x04030201, 0xC0A80001, u32::MAX, 0x12345678] {
        let text = text_of(encode_ipv4(a));
        assert_eq!(text.len(), 8);
        assert_eq!(decode_ipv4(&text), Some(IpAddress::V4(a)));
    }
    assert_eq!(text_of(encode_ipv4(0x7F000001)), "0100007F");
}

#[test]
fn ipv4_text_round_trip() {
    for text in ["0100007F", "01020304", "FFFFFFFF", "00000000", "AB12CD34"] {
        match decode_ipv4(text) {
            Some(IpAddress::V4(a)) => assert_eq!(text_of(encode_ipv4(a)), text),
            other => panic!("{:?}", other),
        }
    }
}

#[test]
fn ipv4_rejects_bad_text() {
    assert_eq!(decode_ipv4(""), None);
    assert_eq!(decode_ipv4("0100007"), None);
    assert_eq!(decode_ipv4("0100007F0"), None);
    assert_eq!(decode_ipv4("0100007G"), None);
    assert_eq!(decode_ipv4("+100007F"), None);
    assert_eq!(decode_ipv4("0100 07F"), None);
}

#[test]
fn ipv6_is_read_big_endian() {
    assert_eq!(decode_ipv6("00000000000000000000000000000001"), Some(IpAddress::V6(1)));
    assert_eq!(
        decode_ipv6("20010DB8000000000000000000000001"),
        Some(IpAddress::V6(0x20010DB8000000000000000000000001))
    );
}

#[test]
fn ipv6_round_trip() {
    for a in [0u128, 1, u128::MAX, 0x20010DB8000000000000000000000001, 0xFFFF_7F00_0001] {
        let text = text_of(encode_ipv6(a));
        assert_eq!(text.len(), 32);
        assert_eq!(decode_ipv6(&text), Some(IpAddress::V6(a)));
        assert_eq!(text_of(encode_ipv6(a)), text);
    }
}

#[test]
fn ipv6_rejects_bad_text() {
    assert_eq!(decode_ipv6("0000000000000000000000000000001"), None);
    assert_eq!(decode_ipv6("000000000000000000000000000000001"), None);
    assert_eq!(decode_ipv6("0000000000000000000000000000000Z"), None);
    assert_eq!(decode_ipv6("01020304"), None);
}

#[test]
fn row_example_yields_port_and_address() {
    let ports = port_set(&[6789]);
    let row = "   0: 0100007F:1A85 01020304:0050 01 00000000:00000000 00:00000000 00000000  1000        0 12345";
    assert_eq!(parse_row(row, &ports, false), Some((6789, IpAddress::V4(0x04030201))));
}

#[test]
fn row_filters() {
    let ports = port_set(&[6789]);
    // not established
    assert_eq!(parse_row("0: 0100007F:1A85 01020304:0050 0A 0", &ports, false), None);
    // port not watched
    assert_eq!(parse_row("0: 0100007F:1A86 01020304:0050 01 0", &ports, false), None);
    // too few fields
    assert_eq!(parse_row("0: 0100007F:1A85 01020304:0050", &ports, false), None);
    // address does not decode
    assert_eq!(parse_row("0: 0100007F:1A85 0102030X:0050 01", &ports, false), None);
    // no colon in the local field
    assert_eq!(parse_row("0: 0100007F 01020304:0050 01", &ports, false), None);
    // IPv4 digits in the IPv6 table
    assert_eq!(parse_row("0: 0100007F:1A85 01020304:0050 01", &ports, true), None);
    // leading zeros, a plus sign and tabs are accepted in the port
    assert_eq!(
        parse_row("0:\t0100007F:00001A85\t01020304:0050\t01", &ports, false),
        Some((6789, IpAddress::V4(0x04030201)))
    );
    assert_eq!(
        parse_row("0: 0100007F:+1a85 01020304:0050 01", &ports, false),
        Some((6789, IpAddress::V4(0x04030201)))
    );
    // a port that does not fit in 16 bits
    assert_eq!(parse_row("0: 0100007F:11A85 01020304:0050 01", &ports, false), None);
}

#[test]
fn non_established_rows_give_empty_mapping() {
    let ports = port_set(&[6789, 80]);
    let text = format!(
        "{}\n 0: 0100007F:1A85 01020304:0050 0A 0\n 1: 0100007F:0050 05060708:1234 06 0\n 2: 0100007F:1A85 01020304:0050 02 0\n",
        HEADER
    );
    let m = scan_table(&text, &ports, false);
    assert!(m.is_empty());
    assert!(m.ports().is_empty());
}

#[test]
fn two_remotes_on_one_port() {
    let ports = port_set(&[6789]);
    let text = format!(
        "{}\n 0: 0100007F:1A85 01020304:0050 01 0\n 1: 0100007F:1A85 05060708:0051 01 0\n 2: 0100007F:1A85 01020304:0052 01 0\n",
        HEADER
    );
    let m = scan_table(&text, &ports, false);
    assert_eq!(m.ports(), vec![6789]);
    let addrs = m.addresses(6789);
    assert_eq!(addrs.len(), 2);
    assert!(addrs.contains(&IpAddress::V4(0x04030201)));
    assert!(addrs.contains(&IpAddress::V4(0x08070605)));
}

#[test]
fn malformed_rows_do_not_stop_the_scan() {
    let ports = port_set(&[6789]);
    let text = format!(
        "{}\ngarbage\n 0: 0100007F:1A85 zz:0050 01 0\n\n 1: 0100007F:1A85 05060708:0051 01 0\r\n",
        HEADER
    );
    let m = scan_table(&text, &ports, false);
    assert_eq!(m.ports(), vec![6789]);
    assert_eq!(m.addresses(6789), vec![IpAddress::V4(0x08070605)]);
}

#[test]
fn first_line_is_always_skipped() {
    let ports = port_set(&[6789]);
    let text = " 0: 0100007F:1A85 01020304:0050 01 0\n 1: 0100007F:1A85 05060708:0051 01 0";
    let m = scan_table(text, &ports, false);
    assert_eq!(m.addresses(6789), vec![IpAddress::V4(0x08070605)]);
}

#[test]
fn header_only_table_is_empty() {
    let ports = port_set(&[6789]);
    assert!(scan_table(HEADER, &ports, false).is_empty());
    assert!(scan_table(&format!("{}\n", HEADER), &ports, true).is_empty());
    assert!(scan_table("", &ports, false).is_empty());
}

#[test]
fn unreadable_table_is_empty() {
    let ports = port_set(&[6789]);
    assert!(scan_source(None, &ports, false).is_empty());
    let text = format!("{}\n 0: 0100007F:1A85 01020304:0050 01 0\n", HEADER);
    let snap = capture(Some(&text), None, &ports, "h".to_string(), "t".to_string());
    assert_eq!(snap.observations.len(), 1);
    assert_eq!(snap.observations[0].port, 6789);
    assert_eq!(snap.observations[0].addresses, vec![IpAddress::V4(0x04030201)]);
    assert_eq!(snap.observations[0].count, 1);
}

#[test]
fn union_across_families() {
    let ports = port_set(&[6789, 80]);
    let t4 = format!(
        "{}\n 0: 0100007F:1A85 01020304:0050 01 0\n 1: 0100007F:0050 05060708:0050 01 0\n",
        HEADER
    );
    let m4 = scan_table(&t4, &ports, false);
    let mut m6 = PortMap::new();
    m6.add(6789, IpAddress::V4(0x04030201));
    m6.add(6789, IpAddress::V6(1));
    let snap = aggregate(&m4, &m6, "host".to_string(), "2024-01-01T00:00:00+00:00".to_string());
    assert_eq!(snap.observations.len(), 2);
    let o = snap.observations.iter().find(|o| o.port == 6789).unwrap();
    assert_eq!(o.count, 2);
    assert_eq!(o.addresses.len(), 2);
    assert!(o.addresses.contains(&IpAddress::V4(0x04030201)));
    assert!(o.addresses.contains(&IpAddress::V6(1)));
    let o = snap.observations.iter().find(|o| o.port == 80).unwrap();
    assert_eq!(o.addresses, vec![IpAddress::V4(0x08070605)]);
}

#[test]
fn records_share_one_timestamp() {
    let ports = port_set(&[6789, 80]);
    let t4 = format!(
        "{}\n 0: 0100007F:1A85 01020304:0050 01 0\n 1: 0100007F:0050 05060708:0050 01 0\n",
        HEADER
    );
    let t6 = format!(
        "{}\n 0: 00000000000000000000000000000001:1A85 20010DB8000000000000000000000001:0050 01 0\n",
        HEADER
    );
    let snap = capture(Some(&t4), Some(&t6), &ports, "box".to_string(), "T1".to_string());
    let records = snap.records();
    assert_eq!(records.len(), 2);
    for r in &records {
        assert_eq!(r.host, "box");
        assert_eq!(r.timestamp, "T1");
        assert_eq!(r.count, r.unique_ips.len());
    }
    let r = records.iter().find(|r| r.port == 6789).unwrap();
    assert_eq!(r.count, 2);
    assert!(r.unique_ips.contains(&IpAddress::V6(0x20010DB8000000000000000000000001)));
}

#[test]
fn consecutive_cycles_same_content() {
    let ports = port_set(&[6789, 80]);
    let t4 = format!(
        "{}\n 0: 0100007F:1A85 01020304:0050 01 0\n 1: 0100007F:0050 05060708:0050 01 0\n",
        HEADER
    );
    let a = capture(Some(&t4), None, &ports, "h".to_string(), "2024-01-01T00:00:00+00:00".to_string());
    let b = capture(Some(&t4), None, &ports, "h".to_string(), "2024-01-01T00:00:10+00:00".to_string());
    assert_ne!(a.timestamp, b.timestamp);
    assert_eq!(a.observations.len(), b.observations.len());
    for (x, y) in a.observations.iter().zip(b.observations.iter()) {
        assert_eq!(x.port, y.port);
        assert_eq!(x.addresses, y.addresses);
        assert_eq!(x.count, y.count);
    }
}

#[test]
fn port_list_parsing() {
    let ports = parse_port_list("4317, 4318,abc,70000, +80 ,,-1,0x10");
    assert_eq!(ports, port_set(&[4317, 4318, 80]));
    assert_eq!(parse_port_list(""), port_set(&[]));
    assert_eq!(parse_port_list("65535"), port_set(&[65535]));
    assert_eq!(parse_port_list("65536"), port_set(&[]));
}

#[test]
fn output_target_required() {
    assert!(has_output_target(true, false, false));
    assert!(has_output_target(false, true, true));
    assert!(!has_output_target(false, true, false));
    assert!(!has_output_target(false, false, true));
    assert!(!has_output_target(false, false, false));
}
