use laliga_dns_evade::address::IpAddr;
use laliga_dns_evade::dns::{
    clear_authenticated_data, ensure_available, extract_address_records, read_u16,
    rewrite_address_record, skip_name, AddressRecord, DnsError, TYPE_HTTPS, TYPE_SVCB,
};

fn ipv4(a: u8, b: u8, c: u8, d: u8) -> u32 {
    u32::from_be_bytes([a, b, c, d])
}

fn ipv6(segments: [u16; 8]) -> u128 {
    let mut value: u128 = 0;
    for segment in segments {
        value = (value << 16) | segment as u128;
    }
    value
}

#[test]
fn extracts_ipv4_record() {
    let packet = [
        0x12, 0x34, 0x81, 0x80,
        0x00, 0x01,
        0x00, 0x01,
        0x00, 0x00,
        0x00, 0x00,
        0x07, b'e', b'x', b'a', b'm', b'p', b'l', b'e',
        0x03, b'c', b'o', b'm',
        0x00,
        0x00, 0x01,
        0x00, 0x01,
        0xc0, 0x0c,
        0x00, 0x01,
        0x00, 0x01,
        0x00, 0x00, 0x00, 0x3c,
        0x00, 0x04,
        203, 0, 113, 10,
    ];

    let records = extract_address_records(&packet).expect("valid DNS packet");

    assert_eq!(
        records,
        vec![AddressRecord::A {
            offset: packet.len() - 4,
            address: ipv4(203, 0, 113, 10),
        }]
    );
}

#[test]
fn rejects_truncated_packet() {
    let packet = [0_u8; 5];

    assert!(extract_address_records(&packet).is_err());
}

#[test]
fn extracts_ipv6_record() {
    let packet = [
        0x12, 0x34, 0x81, 0x80,
        0x00, 0x01,
        0x00, 0x01,
        0x00, 0x00,
        0x00, 0x00,
        0x07, b'e', b'x', b'a', b'm', b'p', b'l', b'e',
        0x03, b'c', b'o', b'm',
        0x00,
        0x00, 0x1c,
        0x00, 0x01,
        0xc0, 0x0c,
        0x00, 0x1c,
        0x00, 0x01,
        0x00, 0x00, 0x00, 0x3c,
        0x00, 0x10,
        0x20, 0x01, 0x0d, 0xb8,
        0x00, 0x00, 0x00, 0x00,
        0x00, 0x00, 0x00, 0x00,
        0x00, 0x00, 0x00, 0x0a,
    ];

    let records = extract_address_records(&packet).expect("valid DNS packet");

    assert_eq!(
        records,
        vec![AddressRecord::Aaaa {
            offset: packet.len() - 16,
            address: ipv6([0x2001, 0x0db8, 0, 0, 0, 0, 0, 10]),
        }]
    );
}

#[test]
fn rewrites_ipv4_rdata_in_place() {
    let mut packet = [
        0x12, 0x34, 0x81, 0x80,
        0x00, 0x01,
        0x00, 0x01,
        0x00, 0x00,
        0x00, 0x00,
        0x07, b'e', b'x', b'a', b'm', b'p', b'l', b'e',
        0x03, b'c', b'o', b'm',
        0x00,
        0x00, 0x01,
        0x00, 0x01,
        0xc0, 0x0c,
        0x00, 0x01,
        0x00, 0x01,
        0x00, 0x00, 0x00, 0x3c,
        0x00, 0x04,
        104, 21, 1, 21,
    ];

    let records = extract_address_records(&packet).expect("valid DNS packet");

    rewrite_address_record(&mut packet, &records[0], IpAddr::v4(104, 21, 1, 20))
        .expect("rewrite should succeed");

    let records = extract_address_records(&packet).expect("rewritten packet should parse");

    assert_eq!(
        records,
        vec![AddressRecord::A {
            offset: packet.len() - 4,
            address: ipv4(104, 21, 1, 20),
        }]
    );
}

#[test]
fn rejects_address_family_mismatch() {
    let mut packet = vec![0_u8; 32];

    let record = AddressRecord::A {
        offset: 28,
        address: ipv4(104, 21, 1, 21),
    };

    let result = rewrite_address_record(&mut packet, &record, IpAddr::v6(0, 0, 0, 0, 0, 0, 0, 1));

    assert!(result.is_err());
}

fn service_binding_packet(record_type: u16) -> Vec<u8> {
    let mut packet = vec![
        0x12, 0x34, 0x81, 0x80,
        0x00, 0x01,
        0x00, 0x01,
        0x00, 0x00,
        0x00, 0x00,
        0x07, b'e', b'x', b'a', b'm', b'p', b'l', b'e',
        0x03, b'c', b'o', b'm',
        0x00,
    ];

    packet.extend_from_slice(&record_type.to_be_bytes());
    packet.extend_from_slice(&1_u16.to_be_bytes());

    packet.extend_from_slice(&[0xc0, 0x0c]);
    packet.extend_from_slice(&record_type.to_be_bytes());
    packet.extend_from_slice(&1_u16.to_be_bytes());
    packet.extend_from_slice(&60_u32.to_be_bytes());

    let rdata = [
        0x00, 0x01,
        0x00,
        0x00, 0x04,
        0x00, 0x08,
        104, 16, 132, 229,
        104, 16, 133, 229,
        0x00, 0x06,
        0x00, 0x10,
        0x26, 0x06, 0x47, 0x00,
        0x00, 0x00, 0x00, 0x00,
        0x00, 0x00, 0x00, 0x00,
        0x00, 0x00, 0x11, 0x11,
    ];

    packet.extend_from_slice(&(rdata.len() as u16).to_be_bytes());
    packet.extend_from_slice(&rdata);

    packet
}

#[test]
fn extracts_https_ipv4_and_ipv6_hints() {
    let packet = service_binding_packet(TYPE_HTTPS);
    let records = extract_address_records(&packet).expect("valid HTTPS DNS packet");

    assert_eq!(records.len(), 3);
    assert_eq!(records[0].address(), IpAddr::v4(104, 16, 132, 229));
    assert_eq!(records[1].address(), IpAddr::v4(104, 16, 133, 229));
    assert_eq!(
        records[2].address(),
        IpAddr::v6(0x2606, 0x4700, 0, 0, 0, 0, 0, 0x1111)
    );
}

#[test]
fn extracts_svcb_ipv4_and_ipv6_hints() {
    let packet = service_binding_packet(TYPE_SVCB);
    let records = extract_address_records(&packet).expect("valid SVCB DNS packet");

    assert_eq!(records.len(), 3);
    assert!(matches!(records[0], AddressRecord::Ipv4Hint { .. }));
    assert!(matches!(records[2], AddressRecord::Ipv6Hint { .. }));
}

#[test]
fn rewrites_https_ipv4hint_in_place() {
    let mut packet = service_binding_packet(TYPE_HTTPS);
    let records = extract_address_records(&packet).expect("valid HTTPS DNS packet");

    let record = records
        .iter()
        .find(|record| record.address() == IpAddr::v4(104, 16, 132, 229))
        .expect("ipv4hint record");

    rewrite_address_record(&mut packet, record, IpAddr::v4(104, 16, 132, 230))
        .expect("ipv4hint rewrite should succeed");

    let rewritten = extract_address_records(&packet).expect("rewritten packet should parse");

    assert!(rewritten
        .iter()
        .any(|record| record.address() == IpAddr::v4(104, 16, 132, 230)));
}

#[test]
fn rewrites_https_ipv6hint_in_place() {
    let mut packet = service_binding_packet(TYPE_HTTPS);
    let records = extract_address_records(&packet).expect("valid HTTPS DNS packet");

    let original = IpAddr::v6(0x2606, 0x4700, 0, 0, 0, 0, 0, 0x1111);
    let replacement = IpAddr::v6(0x2606, 0x4700, 0, 0, 0, 0, 0, 0x1112);

    let record = records
        .iter()
        .find(|record| record.address() == original)
        .expect("ipv6hint record");

    rewrite_address_record(&mut packet, record, replacement)
        .expect("ipv6hint rewrite should succeed");

    let rewritten = extract_address_records(&packet).expect("rewritten packet should parse");

    assert!(rewritten.iter().any(|record| record.address() == replacement));
}

#[test]
fn clears_authenticated_data_flag() {
    let mut packet = [
        0x12, 0x34,
        0x81, 0xa0, // QR, RD, RA, AD
        0x00, 0x00,
        0x00, 0x00,
        0x00, 0x00,
        0x00, 0x00,
    ];

    clear_authenticated_data(&mut packet).expect("AD flag should be cleared");

    assert_eq!(packet[3] & 0x20, 0);
    assert_eq!(packet[2], 0x81);
    assert_eq!(packet[3] & 0x80, 0x80); // RA preserved
}

#[test]
fn rejects_short_packet_when_clearing_ad() {
    let mut packet = [0_u8; 3];

    assert!(clear_authenticated_data(&mut packet).is_err());
}

// ---- further cases of the wire format ----

fn header(qd: u16, an: u16, ns: u16, ar: u16) -> Vec<u8> {
    let mut packet = vec![0x12, 0x34, 0x81, 0x80];
    for count in [qd, an, ns, ar] {
        packet.extend_from_slice(&count.to_be_bytes());
    }
    packet
}

fn svcb_packet(rdata: &[u8]) -> Vec<u8> {
    let mut packet = header(0, 1, 0, 0);
    packet.extend_from_slice(&[0x00]);
    packet.extend_from_slice(&TYPE_HTTPS.to_be_bytes());
    packet.extend_from_slice(&1_u16.to_be_bytes());
    packet.extend_from_slice(&60_u32.to_be_bytes());
    packet.extend_from_slice(&(rdata.len() as u16).to_be_bytes());
    packet.extend_from_slice(rdata);
    packet
}

#[test]
fn reports_short_header() {
    assert_eq!(extract_address_records(&[0_u8; 11]), Err(DnsError::ShortHeader));
}

#[test]
fn reports_truncated_question() {
    let mut packet = header(1, 0, 0, 0);
    packet.extend_from_slice(&[0x00, 0x00, 0x01]);
    assert_eq!(
        extract_address_records(&packet),
        Err(DnsError::Truncated { offset: 13, length: 4 })
    );
}

#[test]
fn reports_record_count_overflow() {
    let packet = header(0, 0xffff, 1, 0);
    assert_eq!(extract_address_records(&packet), Err(DnsError::RecordCountOverflow));
}

#[test]
fn reports_unsupported_label() {
    let mut packet = header(1, 0, 0, 0);
    packet.extend_from_slice(&[0x40, 0x00, 0x00, 0x00, 0x00]);
    assert_eq!(
        extract_address_records(&packet),
        Err(DnsError::UnsupportedLabel { offset: 12 })
    );
}

#[test]
fn empty_message_has_no_records() {
    assert_eq!(extract_address_records(&header(0, 0, 0, 0)), Ok(vec![]));
}

#[test]
fn skips_records_of_other_types_and_sizes() {
    let mut packet = header(0, 2, 0, 0);
    // a TXT record
    packet.extend_from_slice(&[0x00, 0x00, 0x10, 0x00, 0x01, 0, 0, 0, 60, 0x00, 0x02, 0x01, b'x']);
    // an A record whose RDATA is not 4 bytes
    packet.extend_from_slice(&[0x00, 0x00, 0x01, 0x00, 0x01, 0, 0, 0, 60, 0x00, 0x03, 1, 2, 3]);
    assert_eq!(extract_address_records(&packet), Ok(vec![]));
}

#[test]
fn reads_records_of_authority_and_additional_sections() {
    let mut packet = header(0, 0, 1, 1);
    packet.extend_from_slice(&[0x00, 0x00, 0x01, 0x00, 0x01, 0, 0, 0, 60, 0x00, 0x04, 1, 2, 3, 4]);
    packet.extend_from_slice(&[0x00, 0x00, 0x01, 0x00, 0x01, 0, 0, 0, 60, 0x00, 0x04, 5, 6, 7, 8]);
    assert_eq!(
        extract_address_records(&packet),
        Ok(vec![
            AddressRecord::A { offset: 23, address: ipv4(1, 2, 3, 4) },
            AddressRecord::A { offset: 38, address: ipv4(5, 6, 7, 8) },
        ])
    );
}

#[test]
fn reports_short_svcb_rdata() {
    assert_eq!(
        extract_address_records(&svcb_packet(&[0x00, 0x01])),
        Err(DnsError::SvcbTooShort)
    );
}

#[test]
fn reports_svcb_target_past_rdata() {
    let mut packet = svcb_packet(&[0x00, 0x01, 0x03]);
    packet.extend_from_slice(&[b'a', b'b', b'c', 0x00]);
    assert_eq!(extract_address_records(&packet), Err(DnsError::SvcbTargetOverrun));
}

#[test]
fn reports_truncated_svc_param_header() {
    assert_eq!(
        extract_address_records(&svcb_packet(&[0x00, 0x01, 0x00, 0x00, 0x04])),
        Err(DnsError::SvcParamHeaderTruncated)
    );
}

#[test]
fn reports_svc_param_past_rdata() {
    assert_eq!(
        extract_address_records(&svcb_packet(&[0x00, 0x01, 0x00, 0x00, 0x04, 0x00, 0x08, 1, 2, 3, 4])),
        Err(DnsError::SvcParamOverrun)
    );
}

#[test]
fn reports_invalid_ipv4_hint_length() {
    assert_eq!(
        extract_address_records(&svcb_packet(&[0x00, 0x01, 0x00, 0x00, 0x04, 0x00, 0x03, 1, 2, 3])),
        Err(DnsError::InvalidIpv4Hint { length: 3 })
    );
}

#[test]
fn reports_invalid_ipv6_hint_length() {
    assert_eq!(
        extract_address_records(&svcb_packet(&[0x00, 0x01, 0x00, 0x00, 0x06, 0x00, 0x00])),
        Err(DnsError::InvalidIpv6Hint { length: 0 })
    );
}

#[test]
fn ignores_other_svc_params() {
    let packet = svcb_packet(&[0x00, 0x01, 0x00, 0x00, 0x01, 0x00, 0x02, b'h', b'2', 0x00, 0x04, 0x00, 0x04, 9, 9, 9, 9]);
    let records = extract_address_records(&packet).expect("valid HTTPS record");
    assert_eq!(
        records,
        vec![AddressRecord::Ipv4Hint { offset: packet.len() - 4, address: ipv4(9, 9, 9, 9) }]
    );
}

#[test]
fn skip_name_follows_labels_and_stops_at_pointers() {
    let packet = [0x01, b'a', 0x02, b'b', b'c', 0xc0, 0x00, 0x00];
    assert_eq!(skip_name(&packet, 0), Ok(7));
    assert_eq!(skip_name(&packet, 7), Ok(8));
    assert_eq!(skip_name(&packet, 8), Err(DnsError::Truncated { offset: 8, length: 1 }));
    assert_eq!(skip_name(&[0x05, b'a'], 0), Err(DnsError::Truncated { offset: 1, length: 5 }));
    assert_eq!(skip_name(&[0x80], 0), Err(DnsError::UnsupportedLabel { offset: 0 }));
}

#[test]
fn reads_big_endian_u16() {
    assert_eq!(read_u16(&[0x12, 0x34, 0x56], 1), Ok(0x3456));
    assert_eq!(read_u16(&[0x12, 0x34, 0x56], 2), Err(DnsError::Truncated { offset: 2, length: 2 }));
}

#[test]
fn ensure_available_reports_overflow_and_truncation() {
    assert_eq!(ensure_available(&[0_u8; 4], 2, 2), Ok(()));
    assert_eq!(ensure_available(&[0_u8; 4], 3, 2), Err(DnsError::Truncated { offset: 3, length: 2 }));
    assert_eq!(ensure_available(&[0_u8; 4], usize::MAX, 2), Err(DnsError::OffsetOverflow));
}

#[test]
fn rewrite_of_out_of_range_record_is_refused_and_leaves_packet() {
    let mut packet = vec![7_u8; 20];
    let record = AddressRecord::Aaaa { offset: 10, address: 0 };
    assert_eq!(
        rewrite_address_record(&mut packet, &record, IpAddr::v6(1, 2, 3, 4, 5, 6, 7, 8)),
        Err(DnsError::Truncated { offset: 10, length: 16 })
    );
    assert_eq!(packet, vec![7_u8; 20]);
}

#[test]
fn rewrite_of_ipv6_record_with_ipv4_is_refused() {
    let mut packet = vec![0_u8; 40];
    let record = AddressRecord::Ipv6Hint { offset: 4, address: 0 };
    assert_eq!(
        rewrite_address_record(&mut packet, &record, IpAddr::v4(1, 2, 3, 4)),
        Err(DnsError::Ipv6RecordGivenIpv4)
    );
    assert_eq!(packet, vec![0_u8; 40]);
}

#[test]
fn rewrite_writes_big_endian_bytes() {
    let mut packet = vec![0_u8; 24];
    let record = AddressRecord::Aaaa { offset: 4, address: 0 };
    rewrite_address_record(&mut packet, &record, IpAddr::v6(0x2606, 0x4700, 0, 0, 0, 0, 0, 0x1111))
        .expect("in range");
    assert_eq!(&packet[4..20], &[0x26, 0x06, 0x47, 0x00, 0, 0, 0, 0, 0, 0, 0, 0, 0, 0, 0x11, 0x11]);
    assert_eq!(&packet[..4], &[0, 0, 0, 0]);
    assert_eq!(&packet[20..], &[0, 0, 0, 0]);
}

#[test]
fn clearing_ad_keeps_the_records() {
    let mut packet = service_binding_packet(TYPE_HTTPS);
    packet[3] |= 0x20;
    let before = extract_address_records(&packet).expect("valid");
    clear_authenticated_data(&mut packet).expect("long enough");
    assert_eq!(packet[3], 0x80);
    assert_eq!(extract_address_records(&packet).expect("still valid"), before);
}

#[test]
fn rewriting_keeps_the_other_records() {
    let mut packet = service_binding_packet(TYPE_HTTPS);
    let records = extract_address_records(&packet).expect("valid");
    rewrite_address_record(&mut packet, &records[1], IpAddr::v4(1, 1, 1, 1)).expect("same family");
    let rewritten = extract_address_records(&packet).expect("still valid");
    assert_eq!(rewritten[0], records[0]);
    assert_eq!(rewritten[2], records[2]);
    assert_eq!(
        rewritten[1],
        AddressRecord::Ipv4Hint { offset: records[1].offset(), address: ipv4(1, 1, 1, 1) }
    );
}

#[test]
fn rewriting_with_the_same_address_changes_nothing() {
    let mut packet = service_binding_packet(TYPE_HTTPS);
    let original = packet.clone();
    let records = extract_address_records(&packet).expect("valid");
    for record in &records {
        rewrite_address_record(&mut packet, record, record.address()).expect("same family");
    }
    assert_eq!(packet, original);
}
