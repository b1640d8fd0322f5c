use netmon::address::{AddressClass, AddressPolicy, IpAddr, IpCidr};
use netmon::spelling::spell_ip;
use netmon::text::parse_ip;
use netmon::Error;

fn ip(raw: &str) -> IpAddr {
    parse_ip(raw.as_bytes()).unwrap()
}

fn classify(raw: &str) -> AddressClass {
    AddressPolicy::default().classify(ip(raw))
}

const UNUSABLE: &[&str] = &[
    "0.0.0.0/8",
    "169.254.0.0/16",
    "192.0.2.0/24",
    "198.51.100.0/24",
    "203.0.113.0/24",
    "224.0.0.0/4",
    "240.0.0.0/4",
    "::/128",
    "2001:db8::/32",
    "fe80::/10",
    "ff00::/8",
];

const PRIVATE: &[&str] = &["10.0.0.0/8", "172.16.0.0/12", "192.168.0.0/16", "100.64.0.0/10", "fc00::/7"];

#[test]
fn built_in_ranges_all_parse() {
    assert!(UNUSABLE.iter().all(|raw| IpCidr::parse(raw).is_ok()));
    assert!(PRIVATE.iter().all(|raw| IpCidr::parse(raw).is_ok()));
    assert!(AddressPolicy::with_sentinels(&["198.18.0.0/15", "fc00::/18"]).is_ok());
    assert_eq!(AddressPolicy::default().sentinels().len(), 2);
}

#[test]
fn ordinary_public_addresses_are_routable() {
    for raw in ["1.1.1.1", "8.8.8.8", "9.9.9.9", "2606:4700::1"] {
        assert_eq!(classify(raw), AddressClass::Routable, "{}", raw);
    }
}

#[test]
fn fakeip_sentinels_are_recognised() {
    assert_eq!(classify("198.18.0.0"), AddressClass::TunnelSentinel);
    assert_eq!(classify("198.19.255.255"), AddressClass::TunnelSentinel);
    assert_eq!(classify("fc00::1"), AddressClass::TunnelSentinel);
    assert_eq!(classify("198.17.255.255"), AddressClass::Routable);
    assert_eq!(classify("198.20.0.0"), AddressClass::Routable);
}

#[test]
fn the_ipv6_sentinel_range_wins_over_unique_local() {
    assert_eq!(classify("fc00::1"), AddressClass::TunnelSentinel);
    assert_eq!(classify("fd00::1"), AddressClass::Private);
}

#[test]
fn loopback_is_its_own_class() {
    assert_eq!(classify("127.0.0.1"), AddressClass::Loopback);
    assert_eq!(classify("127.10.20.30"), AddressClass::Loopback);
    assert_eq!(classify("::1"), AddressClass::Loopback);
}

#[test]
fn reserved_space_is_unusable() {
    for raw in [
        "0.0.0.0",
        "169.254.1.1",
        "192.0.2.1",
        "198.51.100.1",
        "203.0.113.1",
        "224.0.0.1",
        "255.255.255.255",
        "fe80::1",
        "ff02::1",
        "2001:db8::1",
    ] {
        assert_eq!(classify(raw), AddressClass::Unusable, "{}", raw);
    }
}

#[test]
fn sentinel_ranges_can_be_reconfigured() {
    let policy = AddressPolicy::with_sentinels(&["100.64.0.0/10"]).unwrap();
    assert_eq!(policy.classify(ip("100.64.0.1")), AddressClass::TunnelSentinel);
    assert_eq!(policy.classify(ip("198.18.0.1")), AddressClass::Routable, "the default range is replaced, not extended");
}

#[test]
fn a_malformed_configured_range_is_rejected() {
    assert!(AddressPolicy::with_sentinels(&["not-a-range"]).is_err());
    assert!(AddressPolicy::with_sentinels(&["198.18.0.0/99"]).is_err());
}

#[test]
fn an_empty_sentinel_list_disables_tunnel_detection() {
    let policy = AddressPolicy::with_sentinels(&[]).unwrap();
    assert_eq!(policy.classify(ip("198.18.0.1")), AddressClass::Routable);
}

#[test]
fn the_private_ranges_are_private_and_the_carrier_range_is_the_providers() {
    for raw in ["10.1.101.1", "172.16.0.1", "192.168.1.1", "fd12:3456::1"] {
        assert_eq!(classify(raw), AddressClass::Private, "{}", raw);
    }
    assert_eq!(classify("100.64.0.1"), AddressClass::CarrierGrade);
    assert_eq!(classify("100.127.255.255"), AddressClass::CarrierGrade);
    assert_eq!(classify("100.128.0.0"), AddressClass::Routable);
}

#[test]
fn a_block_reads_back_canonical() {
    let block = IpCidr::parse("10.1.2.3/8").unwrap();
    assert_eq!(block.network(), IpAddr::v4(10, 0, 0, 0));
    assert_eq!(block.prefix_len(), 8);
    assert_eq!(IpCidr::parse("+8").unwrap_err(), Error::InvalidCidr { raw: "+8".to_string() });
    assert_eq!(IpCidr::parse("10.0.0.0/+8").unwrap().prefix_len(), 8);
    assert!(IpCidr::parse("10.0.0.0/8/8").is_err());
    assert!(IpCidr::parse("10.0.0.0").is_err());
    assert!(IpCidr::parse("::/129").is_err());
    assert_eq!(IpCidr::parse("::/0").unwrap().prefix_len(), 0);
}

#[test]
fn addresses_read_as_the_standard_spellings_do() {
    let cases: [(&str, IpAddr); 14] = [
        ("1.2.3.4", IpAddr::v4(1, 2, 3, 4)),
        ("0.0.0.0", IpAddr::v4(0, 0, 0, 0)),
        ("255.255.255.255", IpAddr::v4(255, 255, 255, 255)),
        ("::", IpAddr::v6([0, 0, 0, 0, 0, 0, 0, 0])),
        ("::1", IpAddr::v6([0, 0, 0, 0, 0, 0, 0, 1])),
        ("1::", IpAddr::v6([1, 0, 0, 0, 0, 0, 0, 0])),
        ("2001:db8::ff00:42:8329", IpAddr::v6([0x2001, 0xdb8, 0, 0, 0, 0xff00, 0x42, 0x8329])),
        ("2001:0DB8:0000:0000:0000:FF00:0042:8329", IpAddr::v6([0x2001, 0xdb8, 0, 0, 0, 0xff00, 0x42, 0x8329])),
        ("1:2:3:4:5:6:7:8", IpAddr::v6([1, 2, 3, 4, 5, 6, 7, 8])),
        ("1:2:3:4:5:6:7::", IpAddr::v6([1, 2, 3, 4, 5, 6, 7, 0])),
        ("::2:3:4:5:6:7:8", IpAddr::v6([0, 2, 3, 4, 5, 6, 7, 8])),
        ("::ffff:192.0.2.1", IpAddr::v6([0, 0, 0, 0, 0, 0xffff, 0xc000, 0x0201])),
        ("1:2:3:4:5:6:1.2.3.4", IpAddr::v6([1, 2, 3, 4, 5, 6, 0x0102, 0x0304])),
        ("::1.2.3.4", IpAddr::v6([0, 0, 0, 0, 0, 0, 0x0102, 0x0304])),
    ];
    for (raw, expected) in cases {
        assert_eq!(parse_ip(raw.as_bytes()), Some(expected), "{}", raw);
    }
    for raw in [
        "",
        "1.2.3",
        "1.2.3.4.5",
        "01.2.3.4",
        "256.1.1.1",
        "1.2.3.4 ",
        "+1.2.3.4",
        ":",
        ":::",
        "1::2::3",
        "12345::",
        "1:2:3:4:5:6:7:8:9",
        "1:2:3:4:5:6:7:8::",
        "1::2:3:4:5:6:7:8",
        "1:2:3:4:5:6::1.2.3.4",
        "1:2:1.2.3.4::",
        "::1.2.3.4:5",
        "1:2:3:4:5:6:7:1.2.3.4",
        ":1::2",
        "g::1",
    ] {
        assert_eq!(parse_ip(raw.as_bytes()), None, "{}", raw);
    }
}

fn cidr(raw: &str) -> IpCidr {
    raw.parse().unwrap()
}

#[test]
fn rejects_malformed_input() {
    for raw in [
        "",
        "10.0.0.0",
        "10.0.0.0/",
        "/8",
        "10.0.0.0/33",
        "::/129",
        "not-an-address/8",
        "10.0.0.0/eight",
        "10.0.0.0/8/8",
    ] {
        assert!(raw.parse::<IpCidr>().is_err(), "{:?} should not parse", raw);
    }
}

#[test]
fn accepts_the_widest_and_narrowest_prefixes() {
    assert!(cidr("0.0.0.0/0").contains(ip("203.0.113.9")));
    assert!(cidr("::/0").contains(ip("2001:db8::1")));

    let single = cidr("203.0.113.9/32");
    assert!(single.contains(ip("203.0.113.9")));
    assert!(!single.contains(ip("203.0.113.10")));
}

#[test]
fn contains_respects_block_boundaries() {
    let block = cidr("198.18.0.0/15");
    assert!(block.contains(ip("198.18.0.0")));
    assert!(block.contains(ip("198.18.5.114")));
    assert!(
        block.contains(ip("198.19.255.255")),
        "the block spans two /16s"
    );
    assert!(!block.contains(ip("198.17.255.255")));
    assert!(!block.contains(ip("198.20.0.0")));
}

#[test]
fn contains_works_for_ipv6() {
    let block = cidr("fc00::/18");
    assert!(block.contains(ip("fc00::1")));
    assert!(block.contains(ip("fc00:3fff:ffff:ffff:ffff:ffff:ffff:ffff")));
    assert!(!block.contains(ip("fc00:4000::1")));
    assert!(!block.contains(ip("fd00::1")));
}

#[test]
fn families_never_match_each_other() {
    // Both families reduce to integers; without an explicit family check a /0 block
    // would swallow everything.
    assert!(!cidr("0.0.0.0/0").contains(ip("::1")));
    assert!(!cidr("::/0").contains(ip("127.0.0.1")));
    assert!(!cidr("198.18.0.0/15").contains(ip("::ffff:198.18.0.1")));
}

#[test]
fn rejects_a_prefix_wider_than_the_family() {
    assert!(IpCidr::new(ip("10.0.0.0"), 33).is_err());
    assert!(IpCidr::new(ip("::"), 129).is_err());
    assert!(IpCidr::new(ip("10.0.0.0"), 32).is_ok());
    assert!(IpCidr::new(ip("::"), 128).is_ok());
}

#[test]
fn parses_and_displays_canonically() {
    let block = cidr("198.18.0.0/15");
    assert_eq!(block.network(), ip("198.18.0.0"));
    assert_eq!(block.prefix_len(), 15);
    assert_eq!(block.to_text(), "198.18.0.0/15");
}

#[test]
fn clears_host_bits_written_by_hand() {
    // The spelling a person is likely to type must mean the block they meant.
    assert_eq!(cidr("10.1.2.3/8"), cidr("10.0.0.0/8"));
    assert_eq!(cidr("10.1.2.3/8").to_text(), "10.0.0.0/8");
    assert_eq!(cidr("2001:db8::1/32"), cidr("2001:db8::/32"));
}

#[test]
fn a_prefix_too_wide_is_quoted_as_read() {
    assert_eq!(
        IpCidr::new(ip("10.1.2.3"), 33).unwrap_err(),
        Error::InvalidCidr { raw: "10.1.2.3/33".to_string() }
    );
    assert_eq!(
        IpCidr::parse("0:0:0::/129").unwrap_err(),
        Error::InvalidCidr { raw: "::/129".to_string() }
    );
    assert_eq!(
        IpCidr::parse("10.0.0.0/300").unwrap_err(),
        Error::InvalidCidr { raw: "10.0.0.0/300".to_string() }
    );
}

#[test]
fn ipv6_blocks_are_spelled_as_the_standard_library_spells_them() {
    assert_eq!(cidr("2001:0DB8:0:0:0:0:0:0/32").to_text(), "2001:db8::/32");
    assert_eq!(cidr("::/0").to_text(), "::/0");
    assert_eq!(cidr("::1/128").to_text(), "::1/128");
    assert_eq!(cidr("fe80::/10").to_text(), "fe80::/10");
    // The first of two equally long zero runs is the one written as `::`.
    assert_eq!(cidr("1:0:0:2:0:0:3:4/128").to_text(), "1::2:0:0:3:4/128");
    // A single zero group is never abbreviated.
    assert_eq!(cidr("1:2:3:4:5:6:0:8/128").to_text(), "1:2:3:4:5:6:0:8/128");
    assert_eq!(cidr("::ffff:198.18.0.1/128").to_text(), "::ffff:198.18.0.1/128");
}

#[test]
fn addresses_are_spelled_as_the_standard_library_spells_them() {
    for raw in ["0.0.0.0", "255.255.255.255", "2001:db8::1", "::", "1::", "a:b:c:d:e:f::", "a:b:c:d:e:f:0:1", "::ffff:10.0.0.1", "fc00:3fff:ffff:ffff:ffff:ffff:ffff:ffff"] {
        assert_eq!(spell_ip(ip(raw)), raw);
    }
}
