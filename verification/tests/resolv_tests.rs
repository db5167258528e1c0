use unixism::dns::resolv::{parse, Config, ConfigItem, ConfigOption, IPPair, ParseConfigError};
use unixism::ip::IpAddr;

fn v4(a: u8, b: u8, c: u8, d: u8) -> IpAddr {
    IpAddr::V4(a, b, c, d)
}

#[test]
fn resolv_it_parse() {
    let config = parse(
        b"
nameserver 127.0.0.53
nameserver 127.0.0.52
options edns0 trust-ad timeout:5 attempts:2 ndots:3 debug
search . 127.0.0.1
sortlist 130.155.160.0/255.255.240.0 130.155.0.0
        ",
    );
    assert!(config.is_ok());

    let Config {
        nameservers,
        search_domains,
        sort_list,
        options,
    } = config.unwrap();

    assert_eq!(2, nameservers.len());
    assert_eq!(vec![v4(127, 0, 0, 53), v4(127, 0, 0, 52)], nameservers);

    assert_eq!(2, search_domains.len());
    assert_eq!(vec![b".".to_vec(), b"127.0.0.1".to_vec()], search_domains);

    assert_eq!(2, sort_list.len());
    assert_eq!(
        vec![
            IPPair(v4(130, 155, 160, 0), Some(v4(255, 255, 240, 0))),
            IPPair(v4(130, 155, 0, 0), None),
        ],
        sort_list
    );

    assert_eq!(6, options.len());
    assert_eq!(
        vec![
            ConfigOption::EDNS0,
            ConfigOption::TRUSTAD,
            ConfigOption::Timeout(5),
            ConfigOption::Attempts(2),
            ConfigOption::NDots(3),
            ConfigOption::DEBUG,
        ],
        options
    );
}

#[test]
fn parse_is_deterministic() {
    let input: &[u8] = b"nameserver 127.0.0.1\nsearch a b\noptions ndots:2\n";
    let one = parse(input).unwrap();
    let two = parse(input).unwrap();
    assert_eq!(one.nameservers, two.nameservers);
    assert_eq!(one.search_domains, two.search_domains);
    assert_eq!(one.sort_list, two.sort_list);
    assert_eq!(one.options, two.options);
}

#[test]
fn domain_then_search_accumulates_in_order() {
    let config = parse(b"domain example.com\nsearch foo bar\n").unwrap();
    assert_eq!(
        vec![
            b"example.com".to_vec(),
            b"foo".to_vec(),
            b"bar".to_vec(),
        ],
        config.search_domains
    );
}

#[test]
fn sortlist_token_with_and_without_mask() {
    assert_eq!(
        IPPair(v4(130, 155, 160, 0), Some(v4(255, 255, 240, 0))),
        IPPair::parse(b"130.155.160.0/255.255.240.0").unwrap()
    );
    assert_eq!(
        IPPair(v4(130, 155, 0, 0), None),
        IPPair::parse(b"130.155.0.0").unwrap()
    );
}

#[test]
fn options_tokens_parse_in_order() {
    let config = parse(b"options edns0 trust-ad timeout:5 attempts:2 ndots:3 debug\n").unwrap();
    assert_eq!(
        vec![
            ConfigOption::EDNS0,
            ConfigOption::TRUSTAD,
            ConfigOption::Timeout(5),
            ConfigOption::Attempts(2),
            ConfigOption::NDots(3),
            ConfigOption::DEBUG,
        ],
        config.options
    );
}

#[test]
fn every_flag_option_token_parses() {
    let cases: Vec<(&[u8], ConfigOption)> = vec![
        (b"debug", ConfigOption::DEBUG),
        (b"rotate", ConfigOption::ROTATE),
        (b"no-aaaa", ConfigOption::NOAAAA),
        (b"no-check-names", ConfigOption::NOCHECKNAME),
        (b"inet6", ConfigOption::INET6),
        (b"ip6-bytestring", ConfigOption::IP6BSTRING),
        (b"ip6-dotint", ConfigOption::IP6DOTINT),
        (b"no-ip6-dotint", ConfigOption::NOIP6DOTINT),
        (b"edns0", ConfigOption::EDNS0),
        (b"single-request", ConfigOption::SNGLKUP),
        (b"single-request-reopen", ConfigOption::SNGLKUPREOP),
        (b"no-tld-query", ConfigOption::NOTLDQUERY),
        (b"use-vc", ConfigOption::USEVC),
        (b"no-reload", ConfigOption::NORELOAD),
        (b"trust-ad", ConfigOption::TRUSTAD),
    ];
    for (token, expected) in cases {
        assert_eq!(expected, ConfigOption::parse(token).unwrap());
    }
}

#[test]
fn numeric_option_with_plus_sign_and_extra_colon() {
    // usize::from_str accepts a leading plus, and anything past a second
    // colon is ignored, as in the original format
    assert_eq!(
        ConfigOption::NDots(3),
        ConfigOption::parse(b"ndots:+3").unwrap()
    );
    assert_eq!(
        ConfigOption::Timeout(5),
        ConfigOption::parse(b"timeout:5:9").unwrap()
    );
}

#[test]
fn numeric_option_errors() {
    assert_eq!(
        Err(ParseConfigError::ParseIntError),
        ConfigOption::parse(b"ndots:x")
    );
    assert_eq!(
        Err(ParseConfigError::ParseIntError),
        ConfigOption::parse(b"ndots")
    );
    assert_eq!(
        Err(ParseConfigError::ParseIntError),
        ConfigOption::parse(b"timeout:99999999999999999999999999")
    );
    assert_eq!(
        Err(ParseConfigError::UnknownOption(b"bogus".to_vec())),
        ConfigOption::parse(b"bogus:3")
    );
}

#[test]
fn noise_lines_are_ignored_whatever_they_hold() {
    let plain = parse(b"nameserver 127.0.0.1\n").unwrap();
    let noisy = parse(
        b"# nameserver not.an.ip.at.all\n\nnameserver 127.0.0.1\n percent garbage %%%\n",
    )
    .unwrap();
    assert_eq!(plain.nameservers, noisy.nameservers);
    assert_eq!(vec![v4(127, 0, 0, 1)], noisy.nameservers);
    assert_eq!(0, noisy.search_domains.len());
    assert_eq!(0, noisy.sort_list.len());
    assert_eq!(0, noisy.options.len());
}

#[test]
fn unknown_directive_fails_whole_parse() {
    let r = parse(b"nameserver 127.0.0.1\nfoobar x\nnameserver 127.0.0.2\n");
    assert_eq!(
        ParseConfigError::UnknownOption(b"foobar x".to_vec()),
        r.unwrap_err()
    );
}

#[test]
fn invalid_ip_token_fails_whole_parse() {
    assert_eq!(
        ParseConfigError::IPAddrParseError,
        parse(b"nameserver 1.2.3\n").unwrap_err()
    );
    assert_eq!(
        ParseConfigError::IPAddrParseError,
        parse(b"sortlist 130.155.160.0/not.a.mask\n").unwrap_err()
    );
}

#[test]
fn tab_indented_line_is_not_skipped() {
    // only a leading space hides a line; a tab-indented directive is
    // parsed and, having no recognized keyword, rejected
    let r = parse(b"\tnameserver 127.0.0.1\n");
    assert_eq!(
        ParseConfigError::UnknownOption(b"\tnameserver 127.0.0.1".to_vec()),
        r.unwrap_err()
    );
}

#[test]
fn keyword_is_matched_as_prefix() {
    // "nameservers" begins with "nameserver", so the line is treated as
    // a nameserver directive whose address token cannot parse
    assert_eq!(
        ParseConfigError::IPAddrParseError,
        parse(b"nameservers 1.2.3.4\n").unwrap_err()
    );
    // "domains x" begins with "domain": the rest, trimmed, is the domain
    let config = parse(b"domains x\n").unwrap();
    assert_eq!(vec![b"s x".to_vec()], config.search_domains);
}

#[test]
fn bare_domain_keeps_empty_entry() {
    let config = parse(b"domain\n").unwrap();
    assert_eq!(vec![b"".to_vec()], config.search_domains);
}

#[test]
fn empty_input_gives_empty_config() {
    let config = parse(b"").unwrap();
    assert_eq!(0, config.nameservers.len());
    assert_eq!(0, config.search_domains.len());
    assert_eq!(0, config.sort_list.len());
    assert_eq!(0, config.options.len());
}

#[test]
fn carriage_returns_are_stripped_from_line_ends() {
    let config = parse(b"nameserver 127.0.0.1\r\nsearch a\r\n").unwrap();
    assert_eq!(vec![v4(127, 0, 0, 1)], config.nameservers);
    assert_eq!(vec![b"a".to_vec()], config.search_domains);
}

#[test]
fn from_items_accumulates_every_variant() {
    let items = vec![
        ConfigItem::Domain(b"one".to_vec()),
        ConfigItem::Nameserver(v4(9, 9, 9, 9)),
        ConfigItem::SearchDomains(vec![b"two".to_vec(), b"three".to_vec()]),
        ConfigItem::SortList(vec![IPPair(v4(1, 2, 3, 0), None)]),
        ConfigItem::Options(vec![ConfigOption::DEBUG]),
        ConfigItem::Domain(b"four".to_vec()),
    ];
    let config = Config::from_items(items);
    assert_eq!(vec![v4(9, 9, 9, 9)], config.nameservers);
    assert_eq!(
        vec![
            b"one".to_vec(),
            b"two".to_vec(),
            b"three".to_vec(),
            b"four".to_vec(),
        ],
        config.search_domains
    );
    assert_eq!(vec![IPPair(v4(1, 2, 3, 0), None)], config.sort_list);
    assert_eq!(vec![ConfigOption::DEBUG], config.options);
}

#[test]
fn error_messages_name_the_failure() {
    assert_eq!(
        "unknown option parsed",
        ParseConfigError::UnknownOption(b"zzz".to_vec()).message()
    );
    assert_eq!(
        "invalid IP address syntax",
        ParseConfigError::IPAddrParseError.message()
    );
    assert_eq!(
        "invalid digit found in string",
        ParseConfigError::ParseIntError.message()
    );
    assert_eq!("the input could not be read", ParseConfigError::IOError.message());
}
