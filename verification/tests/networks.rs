use laliga_dns_evade::address::IpAddr;
use laliga_dns_evade::blocklist::Blocklist;
use laliga_dns_evade::networks::{
    find_evasive_address, ipv4_mask, ipv6_mask, parse_network, IpNetwork, NetworkError,
    NetworkList, NetworkListError,
};
use laliga_dns_evade::text::parse_ip_address;

fn ipv4(a: u8, b: u8, c: u8, d: u8) -> u32 {
    u32::from_be_bytes([a, b, c, d])
}

#[test]
fn matches_ipv4_network() {
    let network = parse_network("104.16.0.0/13").expect("valid network");

    assert!(network.contains(&IpAddr::v4(104, 21, 1, 21)));

    assert!(!network.contains(&IpAddr::v4(1, 1, 1, 1)));
}

#[test]
fn matches_ipv6_network() {
    let network = parse_network("2a06:98c0::/29").expect("valid network");

    let inside = parse_ip_address("2a06:98c1:3120::3").expect("valid IPv6");

    let outside = parse_ip_address("2606:4700::1").expect("valid IPv6");

    assert!(network.contains(&inside));
    assert!(!network.contains(&outside));
}

#[test]
fn normalizes_non_network_address() {
    let network = parse_network("104.21.1.21/13").expect("valid network");

    assert_eq!(
        network,
        IpNetwork::V4 {
            network: ipv4(104, 16, 0, 0),
            prefix_len: 13,
        }
    );
}

#[test]
fn rejects_invalid_prefix() {
    assert!(parse_network("104.16.0.0/33").is_err());
    assert!(parse_network("2606:4700::/129").is_err());
}

#[test]
fn finds_unblocked_ipv4_neighbor() {
    let networks = NetworkList::load("104.16.0.0/13\n").expect("networks should load");
    let blocked = Blocklist::load("104.21.1.21\n104.21.1.22\n").expect("blocklist should load");

    let address = IpAddr::v4(104, 21, 1, 21);

    assert_eq!(
        find_evasive_address(&address, &networks, &blocked),
        Some(IpAddr::v4(104, 21, 1, 20))
    );
}

#[test]
fn does_not_leave_cloudflare_network() {
    let networks = NetworkList::load("104.21.1.20/30\n").expect("networks should load");
    let blocked = Blocklist::load("104.21.1.20\n104.21.1.21\n104.21.1.22\n104.21.1.23\n")
        .expect("blocklist should load");

    let address = IpAddr::v4(104, 21, 1, 21);

    assert_eq!(find_evasive_address(&address, &networks, &blocked), None);
}

#[test]
fn reports_network_errors() {
    assert_eq!(parse_network("104.16.0.0"), Err(NetworkError::MissingPrefix));
    assert_eq!(parse_network("104.16.0/13"), Err(NetworkError::InvalidAddress));
    assert_eq!(parse_network("104.16.0.0/"), Err(NetworkError::InvalidPrefixLength));
    assert_eq!(parse_network("104.16.0.0/+"), Err(NetworkError::InvalidPrefixLength));
    assert_eq!(parse_network("104.16.0.0/-1"), Err(NetworkError::InvalidPrefixLength));
    assert_eq!(parse_network("104.16.0.0/256"), Err(NetworkError::InvalidPrefixLength));
    assert_eq!(parse_network("104.16.0.0/13/1"), Err(NetworkError::InvalidPrefixLength));
    assert_eq!(
        parse_network("104.16.0.0/33"),
        Err(NetworkError::Ipv4PrefixTooLong { prefix_len: 33 })
    );
    assert_eq!(
        parse_network("2606:4700::/129"),
        Err(NetworkError::Ipv6PrefixTooLong { prefix_len: 129 })
    );
}

#[test]
fn accepts_prefix_with_plus_sign_and_leading_zeros() {
    assert_eq!(
        parse_network("10.1.2.3/+008"),
        Ok(IpNetwork::V4 { network: ipv4(10, 0, 0, 0), prefix_len: 8 })
    );
    assert_eq!(
        parse_network("10.1.2.3/0"),
        Ok(IpNetwork::V4 { network: 0, prefix_len: 0 })
    );
    assert_eq!(
        parse_network("::1/128"),
        Ok(IpNetwork::V6 { network: 1, prefix_len: 128 })
    );
}

#[test]
fn masks_have_the_prefix_bits_set() {
    assert_eq!(ipv4_mask(0), 0);
    assert_eq!(ipv4_mask(13), 0xfff8_0000);
    assert_eq!(ipv4_mask(32), u32::MAX);
    assert_eq!(ipv6_mask(0), 0);
    assert_eq!(ipv6_mask(29), 0xffff_fff8_u128 << 96);
    assert_eq!(ipv6_mask(128), u128::MAX);
}

#[test]
fn network_never_contains_the_other_family() {
    let network = parse_network("0.0.0.0/0").expect("valid");
    assert!(network.contains(&IpAddr::v4(8, 8, 8, 8)));
    assert!(!network.contains(&IpAddr::v6(0, 0, 0, 0, 0, 0, 0, 0)));
}

#[test]
fn network_list_loads_and_reports_lines() {
    let list = NetworkList::load("# cloudflare\n104.16.0.0/13\n\n  2606:4700::/32  \n").expect("loads");
    assert_eq!(list.len(), 2);
    assert!(list.contains(&IpAddr::v4(104, 16, 0, 1)));
    assert!(list.contains(&parse_ip_address("2606:4700::1").expect("valid")));
    assert!(!list.contains(&IpAddr::v4(1, 1, 1, 1)));
    assert_eq!(
        NetworkList::load("104.16.0.0/13\n 1.2.3.4\n").map(|l| l.len()),
        Err(NetworkListError::InvalidNetwork {
            line: 2,
            text: "1.2.3.4".chars().collect(),
            error: NetworkError::MissingPrefix,
        })
    );
}

#[test]
fn first_containing_network_is_the_first_in_order() {
    let list = NetworkList::load("104.21.1.0/24\n104.16.0.0/13\n").expect("loads");
    assert_eq!(
        list.first_containing(&IpAddr::v4(104, 21, 1, 9)),
        Some(IpNetwork::V4 { network: ipv4(104, 21, 1, 0), prefix_len: 24 })
    );
    assert_eq!(
        list.first_containing(&IpAddr::v4(104, 16, 1, 9)),
        Some(IpNetwork::V4 { network: ipv4(104, 16, 0, 0), prefix_len: 13 })
    );
    assert_eq!(list.first_containing(&IpAddr::v4(9, 9, 9, 9)), None);
}

#[test]
fn prefers_the_nearest_address_above_then_below() {
    let networks = NetworkList::load("104.16.0.0/13\n").expect("loads");
    let blocked = Blocklist::load("104.21.1.21\n").expect("loads");
    assert_eq!(
        find_evasive_address(&IpAddr::v4(104, 21, 1, 21), &networks, &blocked),
        Some(IpAddr::v4(104, 21, 1, 22))
    );
}

#[test]
fn skips_network_and_broadcast_octets_in_the_same_slash_24() {
    let networks = NetworkList::load("104.16.0.0/13\n").expect("loads");
    let blocked = Blocklist::load("104.21.1.254\n104.21.1.253\n").expect("loads");
    // .255 is skipped, so the search goes down from .254
    assert_eq!(
        find_evasive_address(&IpAddr::v4(104, 21, 1, 254), &networks, &blocked),
        Some(IpAddr::v4(104, 21, 1, 252))
    );
}

#[test]
fn falls_back_to_the_wider_network_when_the_slash_24_is_blocked() {
    let networks = NetworkList::load("10.0.0.0/8\n").expect("loads");
    let mut text = String::new();
    for last in 1..=254 {
        text.push_str(&format!("10.0.1.{last}\n"));
    }
    let blocked = Blocklist::load(&text).expect("loads");
    // the nearest address above 10.0.1.200 outside the blocked /24 whose last octet
    // is 1 to 254 is 10.0.2.1
    assert_eq!(
        find_evasive_address(&IpAddr::v4(10, 0, 1, 200), &networks, &blocked),
        Some(IpAddr::v4(10, 0, 2, 1))
    );
}

#[test]
fn finds_ipv6_neighbor() {
    let networks = NetworkList::load("2606:4700::/32\n").expect("loads");
    let blocked = Blocklist::load("2606:4700::1111\n2606:4700::1112\n").expect("loads");
    assert_eq!(
        find_evasive_address(
            &parse_ip_address("2606:4700::1111").expect("valid"),
            &networks,
            &blocked
        ),
        Some(parse_ip_address("2606:4700::1110").expect("valid"))
    );
}

#[test]
fn no_replacement_outside_the_networks() {
    let networks = NetworkList::load("104.16.0.0/13\n").expect("loads");
    let blocked = Blocklist::load("1.1.1.1\n").expect("loads");
    assert_eq!(find_evasive_address(&IpAddr::v4(1, 1, 1, 1), &networks, &blocked), None);
}

#[test]
fn replacement_lies_in_the_network_and_is_unblocked() {
    let networks = NetworkList::load("104.21.1.0/29\n").expect("loads");
    let blocked = Blocklist::load("104.21.1.3\n104.21.1.4\n104.21.1.2\n").expect("loads");
    let address = IpAddr::v4(104, 21, 1, 3);
    let replacement = find_evasive_address(&address, &networks, &blocked).expect("found");
    assert_eq!(replacement, IpAddr::v4(104, 21, 1, 5));
    assert!(networks.contains(&replacement));
    assert!(!blocked.contains(&replacement));
    assert_ne!(replacement, address);
}

#[test]
fn a_network_contains_its_own_address_and_its_prefix() {
    let network = parse_network("198.51.100.77/24").expect("valid");
    assert!(network.contains(&IpAddr::v4(198, 51, 100, 0)));
    assert!(network.contains(&IpAddr::v4(198, 51, 100, 255)));
    assert!(!network.contains(&IpAddr::v4(198, 51, 101, 0)));
}
