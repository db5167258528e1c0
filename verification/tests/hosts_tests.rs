use unixism::hosts::{parse, Host, ParseHostsError};
use unixism::ip::IpAddr;

fn v4(a: u8, b: u8, c: u8, d: u8) -> IpAddr {
    IpAddr::V4(a, b, c, d)
}

fn names(items: &[&[u8]]) -> Vec<Vec<u8>> {
    items.iter().map(|s| s.to_vec()).collect()
}

#[test]
fn mod_it_parse() {
    let parsed = parse(
        b"
127.0.0.1\tlocalhost

# The following lines are desirable for IPv6 capable hosts
::1     ip6-localhost ip6-loopback
fe00::0 ip6-localnet
ff02::1 ip6-allnodes
ff02::2 ip6-allrouters
        ",
    );
    assert!(parsed.is_ok());

    let hosts = parsed.unwrap();
    assert_eq!(5, hosts.len());
    assert_eq!(
        vec![
            Host::new(v4(127, 0, 0, 1), names(&[b"localhost"])),
            Host::new(
                IpAddr::V6(0, 0, 0, 0, 0, 0, 0, 1),
                names(&[b"ip6-localhost", b"ip6-loopback"]),
            ),
            Host::new(
                IpAddr::V6(0xfe00, 0, 0, 0, 0, 0, 0, 0),
                names(&[b"ip6-localnet"]),
            ),
            Host::new(
                IpAddr::V6(0xff02, 0, 0, 0, 0, 0, 0, 1),
                names(&[b"ip6-allnodes"]),
            ),
            Host::new(
                IpAddr::V6(0xff02, 0, 0, 0, 0, 0, 0, 2),
                names(&[b"ip6-allrouters"]),
            ),
        ],
        hosts
    );
}

#[test]
fn single_line_round_trip() {
    let hosts = parse(b"127.0.0.1\tlocalhost").unwrap();
    assert_eq!(
        vec![Host::new(v4(127, 0, 0, 1), names(&[b"localhost"]))],
        hosts
    );

    let hosts = parse(b"::1 ip6-localhost ip6-loopback").unwrap();
    assert_eq!(1, hosts.len());
    assert_eq!(
        Host::new(
            IpAddr::V6(0, 0, 0, 0, 0, 0, 0, 1),
            names(&[b"ip6-localhost", b"ip6-loopback"]),
        ),
        hosts[0]
    );
}

#[test]
fn address_without_names_is_accepted() {
    let hosts = parse(b"10.0.0.7\n").unwrap();
    assert_eq!(vec![Host::new(v4(10, 0, 0, 7), Vec::new())], hosts);
}

#[test]
fn hosts_noise_lines_are_ignored() {
    let plain = parse(b"127.0.0.1 localhost\n").unwrap();
    let noisy = parse(b"# not an address at all\n\n127.0.0.1 localhost\n anything here\n")
        .unwrap();
    assert_eq!(plain, noisy);
}

#[test]
fn invalid_address_fails_whole_parse() {
    let r = parse(b"127.0.0.1 localhost\nnot-an-address name\n");
    assert_eq!(Err(ParseHostsError::IPAddrParseError), r);
}

#[test]
fn empty_hosts_input_gives_no_records() {
    let hosts = parse(b"").unwrap();
    assert_eq!(0, hosts.len());
}

#[test]
fn hosts_parse_is_deterministic() {
    let input: &[u8] = b"127.0.0.1 a b\n::1 c\n";
    assert_eq!(parse(input).unwrap(), parse(input).unwrap());
}

#[test]
fn hosts_error_messages_name_the_failure() {
    assert_eq!(
        "invalid IP address syntax",
        ParseHostsError::IPAddrParseError.message()
    );
    assert_eq!("the input could not be read", ParseHostsError::IOError.message());
}
