use unixism::ip::{parse_ip, parse_ipv4, IpAddr};

#[test]
fn ipv4_plain() {
    assert_eq!(Some((1, 2, 3, 4)), parse_ipv4(b"1.2.3.4"));
    assert_eq!(Some((0, 0, 0, 0)), parse_ipv4(b"0.0.0.0"));
    assert_eq!(Some((255, 255, 255, 255)), parse_ipv4(b"255.255.255.255"));
}

#[test]
fn ipv4_rejects_bad_tokens() {
    assert_eq!(None, parse_ipv4(b""));
    assert_eq!(None, parse_ipv4(b"1.2.3"));
    assert_eq!(None, parse_ipv4(b"1.2.3.4.5"));
    assert_eq!(None, parse_ipv4(b"256.1.1.1"));
    assert_eq!(None, parse_ipv4(b"01.2.3.4"));
    assert_eq!(None, parse_ipv4(b"1.2.3.004"));
    assert_eq!(None, parse_ipv4(b"1.2.3.x"));
    assert_eq!(None, parse_ipv4(b"1..3.4"));
    assert_eq!(None, parse_ipv4(b" 1.2.3.4"));
}

#[test]
fn ipv6_full_and_compressed() {
    assert_eq!(
        Some(IpAddr::V6(1, 2, 3, 4, 5, 6, 7, 8)),
        parse_ip(b"1:2:3:4:5:6:7:8")
    );
    assert_eq!(Some(IpAddr::V6(0, 0, 0, 0, 0, 0, 0, 0)), parse_ip(b"::"));
    assert_eq!(Some(IpAddr::V6(0, 0, 0, 0, 0, 0, 0, 1)), parse_ip(b"::1"));
    assert_eq!(
        Some(IpAddr::V6(0xfe00, 0, 0, 0, 0, 0, 0, 0)),
        parse_ip(b"fe00::")
    );
    assert_eq!(
        Some(IpAddr::V6(1, 2, 3, 4, 5, 6, 7, 0)),
        parse_ip(b"1:2:3:4:5:6:7::")
    );
    assert_eq!(
        Some(IpAddr::V6(1, 2, 3, 4, 5, 6, 0, 7)),
        parse_ip(b"1:2:3:4:5:6::7")
    );
    assert_eq!(
        Some(IpAddr::V6(0xabcd, 0, 0, 0, 0, 0, 0, 0x0ef0)),
        parse_ip(b"abcd::Ef0")
    );
}

#[test]
fn ipv6_embedded_ipv4() {
    assert_eq!(
        Some(IpAddr::V6(0, 0, 0, 0, 0, 0xffff, 0x0102, 0x0304)),
        parse_ip(b"::ffff:1.2.3.4")
    );
    assert_eq!(
        Some(IpAddr::V6(1, 2, 3, 4, 5, 6, 0x0708, 0x090a)),
        parse_ip(b"1:2:3:4:5:6:7.8.9.10")
    );
}

#[test]
fn ipv6_rejects_bad_tokens() {
    assert_eq!(None, parse_ip(b""));
    assert_eq!(None, parse_ip(b":"));
    assert_eq!(None, parse_ip(b":::"));
    assert_eq!(None, parse_ip(b"1:2:3:4:5:6:7"));
    assert_eq!(None, parse_ip(b"1:2:3:4:5:6:7:8:9"));
    assert_eq!(None, parse_ip(b"1::2::3"));
    assert_eq!(None, parse_ip(b"12345::"));
    assert_eq!(None, parse_ip(b"1:2:3:4:5:6:7:8::"));
    assert_eq!(None, parse_ip(b"::1:2:3:4:5:6:7:8"));
    assert_eq!(None, parse_ip(b"g::1"));
    assert_eq!(None, parse_ip(b"1:2:"));
    assert_eq!(None, parse_ip(b"::1:"));
}

#[test]
fn ip_prefers_ipv4_form() {
    assert_eq!(Some(IpAddr::V4(127, 0, 0, 53)), parse_ip(b"127.0.0.53"));
    assert_eq!(None, parse_ip(b"127.0.0.53.1"));
}
