use laliga_dns_evade::address::IpAddr;
use laliga_dns_evade::blocklist::Blocklist;
use laliga_dns_evade::dns::{extract_address_records, AddressRecord, DnsError};
use laliga_dns_evade::networks::NetworkList;
use laliga_dns_evade::policy::{decide, rewrite_response, AddressEvent};

fn response(ad: bool, records: &[(u16, &[u8])]) -> Vec<u8> {
    let mut packet = vec![0x12, 0x34, 0x81, if ad { 0xa0 } else { 0x80 }];
    packet.extend_from_slice(&0_u16.to_be_bytes());
    packet.extend_from_slice(&(records.len() as u16).to_be_bytes());
    packet.extend_from_slice(&0_u16.to_be_bytes());
    packet.extend_from_slice(&0_u16.to_be_bytes());
    for (rtype, rdata) in records {
        packet.push(0x00);
        packet.extend_from_slice(&rtype.to_be_bytes());
        packet.extend_from_slice(&1_u16.to_be_bytes());
        packet.extend_from_slice(&60_u32.to_be_bytes());
        packet.extend_from_slice(&(rdata.len() as u16).to_be_bytes());
        packet.extend_from_slice(rdata);
    }
    packet
}

fn lists() -> (Blocklist, NetworkList, NetworkList) {
    let blocked = Blocklist::load("104.21.1.21\n104.21.1.22\n1.1.1.1\n104.16.132.229\n").expect("loads");
    let v4 = NetworkList::load("104.16.0.0/13\n").expect("loads");
    let v6 = NetworkList::load("2606:4700::/32\n").expect("loads");
    (blocked, v4, v6)
}

#[test]
fn rewrites_blocked_cloudflare_address_and_clears_ad() {
    let (blocked, v4, v6) = lists();
    let mut packet = response(true, &[(1, &[104, 21, 1, 21]), (1, &[8, 8, 8, 8])]);
    let events = rewrite_response(&mut packet, &blocked, &v4, &v6).expect("readable");
    assert_eq!(
        events,
        vec![AddressEvent::Rewritten {
            address: IpAddr::v4(104, 21, 1, 21),
            replacement: IpAddr::v4(104, 21, 1, 20),
        }]
    );
    assert_eq!(packet[3] & 0x20, 0);
    let records = extract_address_records(&packet).expect("still readable");
    assert_eq!(records[0].address(), IpAddr::v4(104, 21, 1, 20));
    assert_eq!(records[1].address(), IpAddr::v4(8, 8, 8, 8));
}

#[test]
fn leaves_blocked_address_outside_the_networks() {
    let (blocked, v4, v6) = lists();
    let mut packet = response(true, &[(1, &[1, 1, 1, 1])]);
    let original = packet.clone();
    let events = rewrite_response(&mut packet, &blocked, &v4, &v6).expect("readable");
    assert_eq!(
        events,
        vec![AddressEvent::BlockedOutsideNetworks { address: IpAddr::v4(1, 1, 1, 1) }]
    );
    assert_eq!(packet, original);
}

#[test]
fn leaves_unblocked_response_untouched() {
    let (blocked, v4, v6) = lists();
    let mut packet = response(true, &[(1, &[104, 21, 1, 30])]);
    let original = packet.clone();
    assert_eq!(rewrite_response(&mut packet, &blocked, &v4, &v6), Ok(vec![]));
    assert_eq!(packet, original);
}

#[test]
fn reports_when_no_replacement_exists() {
    let blocked = Blocklist::load("104.21.1.20\n104.21.1.21\n104.21.1.22\n104.21.1.23\n").expect("loads");
    let v4 = NetworkList::load("104.21.1.20/30\n").expect("loads");
    let v6 = NetworkList::load("").expect("loads");
    let mut packet = response(true, &[(1, &[104, 21, 1, 21])]);
    let original = packet.clone();
    let events = rewrite_response(&mut packet, &blocked, &v4, &v6).expect("readable");
    assert_eq!(
        events,
        vec![AddressEvent::NoReplacement { address: IpAddr::v4(104, 21, 1, 21) }]
    );
    assert_eq!(packet, original);
}

#[test]
fn rewrites_https_hint() {
    let (blocked, v4, v6) = lists();
    let rdata = [0x00, 0x01, 0x00, 0x00, 0x04, 0x00, 0x08, 104, 16, 132, 229, 104, 16, 133, 229];
    let mut packet = response(false, &[(65, &rdata)]);
    let events = rewrite_response(&mut packet, &blocked, &v4, &v6).expect("readable");
    assert_eq!(
        events,
        vec![AddressEvent::Rewritten {
            address: IpAddr::v4(104, 16, 132, 229),
            replacement: IpAddr::v4(104, 16, 132, 230),
        }]
    );
    let records = extract_address_records(&packet).expect("still readable");
    assert_eq!(
        records.iter().map(AddressRecord::address).collect::<Vec<_>>(),
        vec![IpAddr::v4(104, 16, 132, 230), IpAddr::v4(104, 16, 133, 229)]
    );
}

#[test]
fn refuses_unreadable_response_and_leaves_it() {
    let (blocked, v4, v6) = lists();
    let mut packet = vec![0_u8; 7];
    assert_eq!(rewrite_response(&mut packet, &blocked, &v4, &v6), Err(DnsError::ShortHeader));
    assert_eq!(packet, vec![0_u8; 7]);
}

#[test]
fn decide_reports_nothing_for_unblocked_address() {
    let (blocked, v4, v6) = lists();
    assert_eq!(decide(IpAddr::v4(9, 9, 9, 9), &blocked, &v4, &v6), None);
    assert_eq!(
        decide(IpAddr::v4(104, 21, 1, 22), &blocked, &v4, &v6),
        Some(AddressEvent::Rewritten {
            address: IpAddr::v4(104, 21, 1, 22),
            replacement: IpAddr::v4(104, 21, 1, 23),
        })
    );
}

#[test]
fn searches_the_ipv4_list_then_the_ipv6_list() {
    let blocked = Blocklist::load("104.21.1.21\n").expect("loads");
    let v4 = NetworkList::load("").expect("loads");
    // an IPv4 prefix placed in the list read from the IPv6 file still counts
    let v6 = NetworkList::load("104.16.0.0/13\n").expect("loads");
    assert_eq!(
        decide(IpAddr::v4(104, 21, 1, 21), &blocked, &v4, &v6),
        Some(AddressEvent::Rewritten {
            address: IpAddr::v4(104, 21, 1, 21),
            replacement: IpAddr::v4(104, 21, 1, 22),
        })
    );
    let narrow = NetworkList::load("104.21.1.20/31\n").expect("loads");
    // the first list's network is used when both lists hold one
    assert_eq!(
        decide(IpAddr::v4(104, 21, 1, 21), &blocked, &narrow, &v6),
        Some(AddressEvent::Rewritten {
            address: IpAddr::v4(104, 21, 1, 21),
            replacement: IpAddr::v4(104, 21, 1, 20),
        })
    );
}
