use laliga_dns_evade::address::IpAddr;
use laliga_dns_evade::blocklist::{Blocklist, BlocklistError};
use laliga_dns_evade::text::parse_ip_address;

#[test]
fn loads_ipv4_and_ipv6_addresses() {
    let blocklist = Blocklist::load(
        "\
104.21.1.21
2a06:98c1:3120::3

# comment
104.21.1.21
",
    )
    .expect("blocklist should load");

    assert_eq!(blocklist.len(), 2);

    assert!(blocklist.contains(&IpAddr::v4(104, 21, 1, 21)));

    assert!(blocklist.contains(&parse_ip_address("2a06:98c1:3120::3").expect("valid IPv6 address")));
}

#[test]
fn rejects_invalid_address() {
    let result = Blocklist::load("104.21.1.21\nnot-an-ip\n");

    assert!(result.is_err());
}

#[test]
fn reports_the_line_of_an_invalid_address() {
    assert_eq!(
        Blocklist::load("104.21.1.21\n\n# x\n104.21.1.256\n").map(|b| b.len()),
        Err(BlocklistError::InvalidAddress { line: 4, text: "104.21.1.256".chars().collect() })
    );
}

#[test]
fn trims_lines_and_accepts_crlf() {
    let blocklist = Blocklist::load("  1.2.3.4 \r\n\t::1\r\n   \r\n#1.1.1.1\r\n").expect("loads");
    assert_eq!(blocklist.len(), 2);
    assert!(blocklist.contains(&IpAddr::v4(1, 2, 3, 4)));
    assert!(blocklist.contains(&IpAddr::v6(0, 0, 0, 0, 0, 0, 0, 1)));
    assert!(!blocklist.contains(&IpAddr::v4(1, 1, 1, 1)));
}

#[test]
fn trims_unicode_white_space() {
    let blocklist = Blocklist::load("\u{00a0}1.2.3.4\u{3000}\n").expect("loads");
    assert!(blocklist.contains(&IpAddr::v4(1, 2, 3, 4)));
}

#[test]
fn empty_text_is_an_empty_blocklist() {
    assert_eq!(Blocklist::load("").expect("loads").len(), 0);
}

#[test]
fn a_comment_after_an_address_is_not_allowed() {
    assert_eq!(
        Blocklist::load("  1.2.3.4 # note \r\n").map(|b| b.len()),
        Err(BlocklistError::InvalidAddress { line: 1, text: "1.2.3.4 # note".chars().collect() })
    );
}

#[test]
fn insert_reports_new_addresses() {
    let mut blocklist = Blocklist::new();
    assert!(blocklist.insert(IpAddr::v4(10, 0, 0, 1)));
    assert!(!blocklist.insert(IpAddr::v4(10, 0, 0, 1)));
    assert!(blocklist.insert(IpAddr::v6(0, 0, 0, 0, 0, 0, 0, 1)));
    assert_eq!(blocklist.len(), 2);
}

#[test]
fn parses_ipv4_notation() {
    assert_eq!(parse_ip_address("0.0.0.0"), Some(IpAddr::V4(0)));
    assert_eq!(parse_ip_address("255.255.255.255"), Some(IpAddr::V4(u32::MAX)));
    assert_eq!(parse_ip_address("203.0.113.10"), Some(IpAddr::v4(203, 0, 113, 10)));
    assert_eq!(parse_ip_address("1.2.3.04"), None);
    assert_eq!(parse_ip_address("1.2.3.256"), None);
    assert_eq!(parse_ip_address("1.2.3"), None);
    assert_eq!(parse_ip_address("1.2.3.4.5"), None);
    assert_eq!(parse_ip_address("1.2..4"), None);
    assert_eq!(parse_ip_address(" 1.2.3.4"), None);
    assert_eq!(parse_ip_address(""), None);
}

#[test]
fn parses_ipv6_notation() {
    assert_eq!(parse_ip_address("::"), Some(IpAddr::V6(0)));
    assert_eq!(parse_ip_address("::1"), Some(IpAddr::V6(1)));
    assert_eq!(parse_ip_address("1::"), Some(IpAddr::v6(1, 0, 0, 0, 0, 0, 0, 0)));
    assert_eq!(
        parse_ip_address("1:2:3:4:5:6:7:8"),
        Some(IpAddr::v6(1, 2, 3, 4, 5, 6, 7, 8))
    );
    assert_eq!(
        parse_ip_address("2606:4700::1111"),
        Some(IpAddr::v6(0x2606, 0x4700, 0, 0, 0, 0, 0, 0x1111))
    );
    assert_eq!(
        parse_ip_address("ABCD:ef01::0001"),
        Some(IpAddr::v6(0xabcd, 0xef01, 0, 0, 0, 0, 0, 1))
    );
    assert_eq!(
        parse_ip_address("::ffff:192.0.2.1"),
        Some(IpAddr::v6(0, 0, 0, 0, 0, 0xffff, 0xc000, 0x0201))
    );
    assert_eq!(
        parse_ip_address("1:2:3:4:5:6:1.2.3.4"),
        Some(IpAddr::v6(1, 2, 3, 4, 5, 6, 0x0102, 0x0304))
    );
    assert_eq!(
        parse_ip_address("1:2:3:4:5:6:7::"),
        Some(IpAddr::v6(1, 2, 3, 4, 5, 6, 7, 0))
    );
    assert_eq!(parse_ip_address("1:2:3:4:5:6:7:8:9"), None);
    assert_eq!(parse_ip_address("1:2:3:4:5:6:7:8::"), None);
    assert_eq!(parse_ip_address("1::2::3"), None);
    assert_eq!(parse_ip_address("12345::"), None);
    assert_eq!(parse_ip_address(":1:2:3:4:5:6:7"), None);
    assert_eq!(parse_ip_address("1:2:3:4:5:6:7"), None);
    assert_eq!(parse_ip_address(":::"), None);
    assert_eq!(parse_ip_address("1.2.3.4::"), None);
    assert_eq!(parse_ip_address("::1.2.3.4:5"), None);
    assert_eq!(parse_ip_address("1:2:3:4:5:6::1.2.3.4"), None);
    assert_eq!(parse_ip_address("1:2:3:4:5:1.2.3.4"), None);
    assert_eq!(parse_ip_address("g::"), None);
}
