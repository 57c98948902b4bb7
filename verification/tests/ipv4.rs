use dns_registry::ipv4::format_ipv4;
use dns_registry::ipv4::parse_ipv4;
use dns_registry::ipv4::Ipv4Address;

#[test]
fn parse_plain_quads() {
    assert_eq!(
        parse_ipv4("8.8.8.8"),
        Some(Ipv4Address { a: 8, b: 8, c: 8, d: 8 })
    );
    assert_eq!(
        parse_ipv4("192.168.0.1"),
        Some(Ipv4Address { a: 192, b: 168, c: 0, d: 1 })
    );
    assert_eq!(
        parse_ipv4("0.0.0.0"),
        Some(Ipv4Address { a: 0, b: 0, c: 0, d: 0 })
    );
    assert_eq!(
        parse_ipv4("255.255.255.255"),
        Some(Ipv4Address { a: 255, b: 255, c: 255, d: 255 })
    );
}

#[test]
fn parse_rejects_octets_out_of_range() {
    assert_eq!(parse_ipv4("256.1.1.1"), None);
    assert_eq!(parse_ipv4("1.1.1.999"), None);
    assert_eq!(parse_ipv4("1.1.1.1000"), None);
}

#[test]
fn parse_rejects_wrong_shape() {
    assert_eq!(parse_ipv4("not-an-ip"), None);
    assert_eq!(parse_ipv4(""), None);
    assert_eq!(parse_ipv4("1.2.3"), None);
    assert_eq!(parse_ipv4("1.2.3.4.5"), None);
    assert_eq!(parse_ipv4("1..2.3"), None);
    assert_eq!(parse_ipv4(".1.2.3"), None);
    assert_eq!(parse_ipv4("1.2.3."), None);
    assert_eq!(parse_ipv4("1.2.3.4 "), None);
    assert_eq!(parse_ipv4("+1.2.3.4"), None);
    assert_eq!(parse_ipv4("1.2.3.f"), None);
}

#[test]
fn parse_rejects_leading_zeros() {
    assert_eq!(parse_ipv4("01.2.3.4"), None);
    assert_eq!(parse_ipv4("1.2.3.04"), None);
    assert_eq!(parse_ipv4("1.2.3.004"), None);
    assert_eq!(
        parse_ipv4("1.2.3.0"),
        Some(Ipv4Address { a: 1, b: 2, c: 3, d: 0 })
    );
}

#[test]
fn format_plain_quads() {
    assert_eq!(
        format_ipv4(&Ipv4Address { a: 8, b: 8, c: 8, d: 8 }),
        String::from("8.8.8.8")
    );
    assert_eq!(
        format_ipv4(&Ipv4Address { a: 10, b: 0, c: 200, d: 7 }),
        String::from("10.0.200.7")
    );
    assert_eq!(
        format_ipv4(&Ipv4Address { a: 255, b: 255, c: 255, d: 255 }),
        String::from("255.255.255.255")
    );
    assert_eq!(
        format_ipv4(&Ipv4Address { a: 0, b: 0, c: 0, d: 0 }),
        String::from("0.0.0.0")
    );
}

#[test]
fn parse_format_round_trip() {
    let texts = ["8.8.8.8", "192.168.0.1", "0.0.0.0", "255.255.255.255", "10.0.200.7"];
    for t in texts {
        let ip = parse_ipv4(t).unwrap();
        assert_eq!(format_ipv4(&ip), String::from(t));
    }
    let ip = Ipv4Address { a: 172, b: 16, c: 5, d: 90 };
    assert_eq!(parse_ipv4(&format_ipv4(&ip)), Some(ip));
}
