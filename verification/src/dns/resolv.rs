//! Resolver configuration parsing: nameservers, search domains, sort
//! lists and resolver options, accumulated line by line in file order.
use vstd::prelude::*;

use crate::ip::{all_digits, dec_val, is_digit, lemma_dec_val_prefix, parse_ip, spec_parse_ip,
    IpAddr};
use crate::text::{content_lines, content_lines_exec, lemma_split_on_len, split_on, split_on_exec,
    split_ws, split_ws_exec, starts_with, starts_with_exec, bytes_eq, subrange_vec, trim,
    trim_exec, views_of};

verus! {

/// Why a resolver configuration failed to parse.
#[derive(Debug, PartialEq, Eq)]
pub enum ParseConfigError {
    /// A directive line's leading keyword, or an option token's key, is
    /// not recognized; carries the offending bytes.
    UnknownOption(Vec<u8>),
    /// A token that should be an IP address is not one.
    IPAddrParseError,
    /// A numeric option payload is not a non-negative integer in range.
    ParseIntError,
    /// The input could not be read; produced only by callers that do the
    /// reading, never by the parser itself.
    IOError,
}

/// The mathematical content of a `ParseConfigError`.
pub ghost enum ConfigErrorView {
    UnknownOption(Seq<u8>),
    IPAddrParseError,
    ParseIntError,
    IOError,
}

impl View for ParseConfigError {
    type V = ConfigErrorView;

    open spec fn view(&self) -> ConfigErrorView {
        match self {
            ParseConfigError::UnknownOption(s) => ConfigErrorView::UnknownOption(s@),
            ParseConfigError::IPAddrParseError => ConfigErrorView::IPAddrParseError,
            ParseConfigError::ParseIntError => ConfigErrorView::ParseIntError,
            ParseConfigError::IOError => ConfigErrorView::IOError,
        }
    }
}

impl ParseConfigError {
    /// A short description of the failure, standing in for `Display`,
    /// which a verified type cannot implement.
    pub fn message(&self) -> (r: &'static str)
        ensures
            r@ == match self {
                ParseConfigError::UnknownOption(_) => "unknown option parsed"@,
                ParseConfigError::IPAddrParseError => "invalid IP address syntax"@,
                ParseConfigError::ParseIntError => "invalid digit found in string"@,
                ParseConfigError::IOError => "the input could not be read"@,
            },
    {
        match self {
            ParseConfigError::UnknownOption(_) => "unknown option parsed",
            ParseConfigError::IPAddrParseError => "invalid IP address syntax",
            ParseConfigError::ParseIntError => "invalid digit found in string",
            ParseConfigError::IOError => "the input could not be read",
        }
    }
}

/// An IP address with an optional netmask, from an `addr` or `addr/mask`
/// sort-list token.
#[derive(Debug, Clone, Copy, PartialEq, Eq)]
pub struct IPPair(pub IpAddr, pub Option<IpAddr>);

/// One resolver option.
#[derive(Debug, Clone, Copy, PartialEq, Eq)]
pub enum ConfigOption {
    DEBUG,
    NDots(usize),
    Timeout(usize),
    Attempts(usize),
    ROTATE,
    NOAAAA,
    NOCHECKNAME,
    INET6,
    IP6BSTRING,
    IP6DOTINT,
    NOIP6DOTINT,
    EDNS0,
    SNGLKUP,
    SNGLKUPREOP,
    NOTLDQUERY,
    USEVC,
    NORELOAD,
    TRUSTAD,
}

/// The directive or option keyword `debug`.
pub open spec fn kw_debug() -> Seq<u8> {
    seq!['d' as u8, 'e' as u8, 'b' as u8, 'u' as u8, 'g' as u8]
}

/// The directive or option keyword `rotate`.
pub open spec fn kw_rotate() -> Seq<u8> {
    seq!['r' as u8, 'o' as u8, 't' as u8, 'a' as u8, 't' as u8, 'e' as u8]
}

/// The directive or option keyword `no-aaaa`.
pub open spec fn kw_no_aaaa() -> Seq<u8> {
    seq!['n' as u8, 'o' as u8, '-' as u8, 'a' as u8, 'a' as u8, 'a' as u8, 'a' as u8]
}

/// The directive or option keyword `no-check-names`.
pub open spec fn kw_no_check_names() -> Seq<u8> {
    seq!['n' as u8, 'o' as u8, '-' as u8, 'c' as u8, 'h' as u8, 'e' as u8, 'c' as u8, 'k' as u8, '-' as u8, 'n' as u8, 'a' as u8, 'm' as u8, 'e' as u8, 's' as u8]
}

/// The directive or option keyword `inet6`.
pub open spec fn kw_inet6() -> Seq<u8> {
    seq!['i' as u8, 'n' as u8, 'e' as u8, 't' as u8, '6' as u8]
}

/// The directive or option keyword `ip6-bytestring`.
pub open spec fn kw_ip6_bytestring() -> Seq<u8> {
    seq!['i' as u8, 'p' as u8, '6' as u8, '-' as u8, 'b' as u8, 'y' as u8, 't' as u8, 'e' as u8, 's' as u8, 't' as u8, 'r' as u8, 'i' as u8, 'n' as u8, 'g' as u8]
}

/// The directive or option keyword `ip6-dotint`.
pub open spec fn kw_ip6_dotint() -> Seq<u8> {
    seq!['i' as u8, 'p' as u8, '6' as u8, '-' as u8, 'd' as u8, 'o' as u8, 't' as u8, 'i' as u8, 'n' as u8, 't' as u8]
}

/// The directive or option keyword `no-ip6-dotint`.
pub open spec fn kw_no_ip6_dotint() -> Seq<u8> {
    seq!['n' as u8, 'o' as u8, '-' as u8, 'i' as u8, 'p' as u8, '6' as u8, '-' as u8, 'd' as u8, 'o' as u8, 't' as u8, 'i' as u8, 'n' as u8, 't' as u8]
}

/// The directive or option keyword `edns0`.
pub open spec fn kw_edns0() -> Seq<u8> {
    seq!['e' as u8, 'd' as u8, 'n' as u8, 's' as u8, '0' as u8]
}

/// The directive or option keyword `single-request`.
pub open spec fn kw_single_request() -> Seq<u8> {
    seq!['s' as u8, 'i' as u8, 'n' as u8, 'g' as u8, 'l' as u8, 'e' as u8, '-' as u8, 'r' as u8, 'e' as u8, 'q' as u8, 'u' as u8, 'e' as u8, 's' as u8, 't' as u8]
}

/// The directive or option keyword `single-request-reopen`.
pub open spec fn kw_single_request_reopen() -> Seq<u8> {
    seq!['s' as u8, 'i' as u8, 'n' as u8, 'g' as u8, 'l' as u8, 'e' as u8, '-' as u8, 'r' as u8, 'e' as u8, 'q' as u8, 'u' as u8, 'e' as u8, 's' as u8, 't' as u8, '-' as u8, 'r' as u8, 'e' as u8, 'o' as u8, 'p' as u8, 'e' as u8, 'n' as u8]
}

/// The directive or option keyword `no-tld-query`.
pub open spec fn kw_no_tld_query() -> Seq<u8> {
    seq!['n' as u8, 'o' as u8, '-' as u8, 't' as u8, 'l' as u8, 'd' as u8, '-' as u8, 'q' as u8, 'u' as u8, 'e' as u8, 'r' as u8, 'y' as u8]
}

/// The directive or option keyword `use-vc`.
pub open spec fn kw_use_vc() -> Seq<u8> {
    seq!['u' as u8, 's' as u8, 'e' as u8, '-' as u8, 'v' as u8, 'c' as u8]
}

/// The directive or option keyword `no-reload`.
pub open spec fn kw_no_reload() -> Seq<u8> {
    seq!['n' as u8, 'o' as u8, '-' as u8, 'r' as u8, 'e' as u8, 'l' as u8, 'o' as u8, 'a' as u8, 'd' as u8]
}

/// The directive or option keyword `trust-ad`.
pub open spec fn kw_trust_ad() -> Seq<u8> {
    seq!['t' as u8, 'r' as u8, 'u' as u8, 's' as u8, 't' as u8, '-' as u8, 'a' as u8, 'd' as u8]
}

/// The directive or option keyword `ndots`.
pub open spec fn kw_ndots() -> Seq<u8> {
    seq!['n' as u8, 'd' as u8, 'o' as u8, 't' as u8, 's' as u8]
}

/// The directive or option keyword `timeout`.
pub open spec fn kw_timeout() -> Seq<u8> {
    seq!['t' as u8, 'i' as u8, 'm' as u8, 'e' as u8, 'o' as u8, 'u' as u8, 't' as u8]
}

/// The directive or option keyword `attempts`.
pub open spec fn kw_attempts() -> Seq<u8> {
    seq!['a' as u8, 't' as u8, 't' as u8, 'e' as u8, 'm' as u8, 'p' as u8, 't' as u8, 's' as u8]
}

/// The directive or option keyword `nameserver`.
pub open spec fn kw_nameserver() -> Seq<u8> {
    seq!['n' as u8, 'a' as u8, 'm' as u8, 'e' as u8, 's' as u8, 'e' as u8, 'r' as u8, 'v' as u8, 'e' as u8, 'r' as u8]
}

/// The directive or option keyword `domain`.
pub open spec fn kw_domain() -> Seq<u8> {
    seq!['d' as u8, 'o' as u8, 'm' as u8, 'a' as u8, 'i' as u8, 'n' as u8]
}

/// The directive or option keyword `search`.
pub open spec fn kw_search() -> Seq<u8> {
    seq!['s' as u8, 'e' as u8, 'a' as u8, 'r' as u8, 'c' as u8, 'h' as u8]
}

/// The directive or option keyword `sortlist`.
pub open spec fn kw_sortlist() -> Seq<u8> {
    seq!['s' as u8, 'o' as u8, 'r' as u8, 't' as u8, 'l' as u8, 'i' as u8, 's' as u8, 't' as u8]
}

/// The directive or option keyword `options`.
pub open spec fn kw_options() -> Seq<u8> {
    seq!['o' as u8, 'p' as u8, 't' as u8, 'i' as u8, 'o' as u8, 'n' as u8, 's' as u8]
}

/// The parse of a non-negative integer, as `usize::from_str` accepts
/// it: an optional leading `+`, then one or more decimal digits whose
/// value fits in `usize`.
pub open spec fn spec_parse_usize(s: Seq<u8>) -> Option<usize> {
    let digits = if s.len() > 0 && s[0] == '+' as u8 {
        s.drop_first()
    } else {
        s
    };
    if digits.len() > 0 && all_digits(digits) && dec_val(digits) <= usize::MAX as int {
        Some(dec_val(digits) as usize)
    } else {
        None
    }
}

/// Parse a non-negative integer token.
pub fn parse_usize(s: &[u8]) -> (r: Option<usize>)
    ensures
        r == spec_parse_usize(s@),
{
    let n: usize = s.len();
    let start: usize = if n > 0 && s[0] == '+' as u8 {
        1
    } else {
        0
    };
    let ghost digits = if s@.len() > 0 && s@[0] == '+' as u8 {
        s@.drop_first()
    } else {
        s@
    };
    proof {
        assert(digits =~= s@.skip(start as int));
    }
    if start == n {
        return None;
    }
    let mut val: usize = 0;
    let mut i: usize = start;
    proof {
        assert(digits.take(0) =~= Seq::<u8>::empty());
    }
    while i < n
        invariant
            n == s@.len(),
            start <= i <= n,
            start <= 1,
            digits == s@.skip(start as int),
            digits == (if s@.len() > 0 && s@[0] == '+' as u8 {
                s@.drop_first()
            } else {
                s@
            }),
            digits.len() == n - start,
            forall|k: int| 0 <= k < i - start ==> is_digit(digits[k]),
            val == dec_val(digits.take(i - start)),
        decreases n - i,
    {
        let b = s[i];
        proof {
            assert(digits[i - start] == s@[i as int]);
        }
        if b < '0' as u8 || b > '9' as u8 {
            proof {
                assert(!is_digit(digits[i - start]));
            }
            return None;
        }
        proof {
            assert(digits.take(i - start + 1).drop_last() =~= digits.take(i - start));
            assert(digits.take(i - start + 1).last() == digits[i - start]);
            assert(dec_val(digits.take(i - start + 1)) == 10 * val + (b - '0' as u8));
        }
        let d: usize = (b - '0' as u8) as usize;
        let overflowed: bool = match val.checked_mul(10) {
            Some(v10) => match v10.checked_add(d) {
                Some(v) => {
                    val = v;
                    false
                },
                None => true,
            },
            None => true,
        };
        if overflowed {
            proof {
                assert(dec_val(digits.take(i - start + 1)) > usize::MAX as int);
                if all_digits(digits) && dec_val(digits) <= usize::MAX as int {
                    lemma_dec_val_prefix(digits, i - start + 1);
                    assert(false);
                }
            }
            return None;
        }
        i += 1;
    }
    proof {
        assert(digits.take(n - start) =~= digits);
    }
    Some(val)
}

/// The parse of one `options` token: a known key, possibly followed by
/// `:` and, for the numeric keys, an integer payload; anything past a
/// second `:` is ignored.
pub open spec fn spec_parse_option(t: Seq<u8>) -> Result<ConfigOption, ConfigErrorView> {
    let ps = split_on(t, ':' as u8);
    let key = ps[0];
    if key == kw_debug() {
        Ok(ConfigOption::DEBUG)
    } else if key == kw_rotate() {
        Ok(ConfigOption::ROTATE)
    } else if key == kw_no_aaaa() {
        Ok(ConfigOption::NOAAAA)
    } else if key == kw_no_check_names() {
        Ok(ConfigOption::NOCHECKNAME)
    } else if key == kw_inet6() {
        Ok(ConfigOption::INET6)
    } else if key == kw_ip6_bytestring() {
        Ok(ConfigOption::IP6BSTRING)
    } else if key == kw_ip6_dotint() {
        Ok(ConfigOption::IP6DOTINT)
    } else if key == kw_no_ip6_dotint() {
        Ok(ConfigOption::NOIP6DOTINT)
    } else if key == kw_edns0() {
        Ok(ConfigOption::EDNS0)
    } else if key == kw_single_request() {
        Ok(ConfigOption::SNGLKUP)
    } else if key == kw_single_request_reopen() {
        Ok(ConfigOption::SNGLKUPREOP)
    } else if key == kw_no_tld_query() {
        Ok(ConfigOption::NOTLDQUERY)
    } else if key == kw_use_vc() {
        Ok(ConfigOption::USEVC)
    } else if key == kw_no_reload() {
        Ok(ConfigOption::NORELOAD)
    } else if key == kw_trust_ad() {
        Ok(ConfigOption::TRUSTAD)
    } else if key == kw_ndots() || key == kw_timeout() || key == kw_attempts() {
        let payload = if ps.len() >= 2 {
            ps[1]
        } else {
            Seq::<u8>::empty()
        };
        match spec_parse_usize(payload) {
            Some(v) => Ok(
                if key == kw_ndots() {
                    ConfigOption::NDots(v)
                } else if key == kw_timeout() {
                    ConfigOption::Timeout(v)
                } else {
                    ConfigOption::Attempts(v)
                },
            ),
            None => Err(ConfigErrorView::ParseIntError),
        }
    } else {
        Err(ConfigErrorView::UnknownOption(key))
    }
}

impl ConfigOption {
    /// Parse one `options` token.
    pub fn parse(t: &[u8]) -> (r: Result<ConfigOption, ParseConfigError>)
        ensures
            ({
                let s = spec_parse_option(t@);
                match r {
                    Ok(o) => s == Ok::<ConfigOption, ConfigErrorView>(o),
                    Err(e) => s == Err::<ConfigOption, ConfigErrorView>(e@),
                }
            }),
    {
        let ps = split_on_exec(t, ':' as u8);
        proof {
            lemma_split_on_len(t@, ':' as u8);
            assert(ps@[0]@ == split_on(t@, ':' as u8)[0]);
        }
        let key = ps[0].as_slice();
    let a_debug: [u8; 5] = ['d' as u8, 'e' as u8, 'b' as u8, 'u' as u8, 'g' as u8];
    proof {
        assert(a_debug@ =~= kw_debug());
    }
    if bytes_eq(key, a_debug.as_slice()) {
        return Ok(ConfigOption::DEBUG);
    }
    let a_rotate: [u8; 6] = ['r' as u8, 'o' as u8, 't' as u8, 'a' as u8, 't' as u8, 'e' as u8];
    proof {
        assert(a_rotate@ =~= kw_rotate());
    }
    if bytes_eq(key, a_rotate.as_slice()) {
        return Ok(ConfigOption::ROTATE);
    }
    let a_no_aaaa: [u8; 7] = ['n' as u8, 'o' as u8, '-' as u8, 'a' as u8, 'a' as u8, 'a' as u8, 'a' as u8];
    proof {
        assert(a_no_aaaa@ =~= kw_no_aaaa());
    }
    if bytes_eq(key, a_no_aaaa.as_slice()) {
        return Ok(ConfigOption::NOAAAA);
    }
    let a_no_check_names: [u8; 14] = ['n' as u8, 'o' as u8, '-' as u8, 'c' as u8, 'h' as u8, 'e' as u8, 'c' as u8, 'k' as u8, '-' as u8, 'n' as u8, 'a' as u8, 'm' as u8, 'e' as u8, 's' as u8];
    proof {
        assert(a_no_check_names@ =~= kw_no_check_names());
    }
    if bytes_eq(key, a_no_check_names.as_slice()) {
        return Ok(ConfigOption::NOCHECKNAME);
    }
    let a_inet6: [u8; 5] = ['i' as u8, 'n' as u8, 'e' as u8, 't' as u8, '6' as u8];
    proof {
        assert(a_inet6@ =~= kw_inet6());
    }
    if bytes_eq(key, a_inet6.as_slice()) {
        return Ok(ConfigOption::INET6);
    }
    let a_ip6_bytestring: [u8; 14] = ['i' as u8, 'p' as u8, '6' as u8, '-' as u8, 'b' as u8, 'y' as u8, 't' as u8, 'e' as u8, 's' as u8, 't' as u8, 'r' as u8, 'i' as u8, 'n' as u8, 'g' as u8];
    proof {
        assert(a_ip6_bytestring@ =~= kw_ip6_bytestring());
    }
    if bytes_eq(key, a_ip6_bytestring.as_slice()) {
        return Ok(ConfigOption::IP6BSTRING);
    }
    let a_ip6_dotint: [u8; 10] = ['i' as u8, 'p' as u8, '6' as u8, '-' as u8, 'd' as u8, 'o' as u8, 't' as u8, 'i' as u8, 'n' as u8, 't' as u8];
    proof {
        assert(a_ip6_dotint@ =~= kw_ip6_dotint());
    }
    if bytes_eq(key, a_ip6_dotint.as_slice()) {
        return Ok(ConfigOption::IP6DOTINT);
    }
    let a_no_ip6_dotint: [u8; 13] = ['n' as u8, 'o' as u8, '-' as u8, 'i' as u8, 'p' as u8, '6' as u8, '-' as u8, 'd' as u8, 'o' as u8, 't' as u8, 'i' as u8, 'n' as u8, 't' as u8];
    proof {
        assert(a_no_ip6_dotint@ =~= kw_no_ip6_dotint());
    }
    if bytes_eq(key, a_no_ip6_dotint.as_slice()) {
        return Ok(ConfigOption::NOIP6DOTINT);
    }
    let a_edns0: [u8; 5] = ['e' as u8, 'd' as u8, 'n' as u8, 's' as u8, '0' as u8];
    proof {
        assert(a_edns0@ =~= kw_edns0());
    }
    if bytes_eq(key, a_edns0.as_slice()) {
        return Ok(ConfigOption::EDNS0);
    }
    let a_single_request: [u8; 14] = ['s' as u8, 'i' as u8, 'n' as u8, 'g' as u8, 'l' as u8, 'e' as u8, '-' as u8, 'r' as u8, 'e' as u8, 'q' as u8, 'u' as u8, 'e' as u8, 's' as u8, 't' as u8];
    proof {
        assert(a_single_request@ =~= kw_single_request());
    }
    if bytes_eq(key, a_single_request.as_slice()) {
        return Ok(ConfigOption::SNGLKUP);
    }
    let a_single_request_reopen: [u8; 21] = ['s' as u8, 'i' as u8, 'n' as u8, 'g' as u8, 'l' as u8, 'e' as u8, '-' as u8, 'r' as u8, 'e' as u8, 'q' as u8, 'u' as u8, 'e' as u8, 's' as u8, 't' as u8, '-' as u8, 'r' as u8, 'e' as u8, 'o' as u8, 'p' as u8, 'e' as u8, 'n' as u8];
    proof {
        assert(a_single_request_reopen@ =~= kw_single_request_reopen());
    }
    if bytes_eq(key, a_single_request_reopen.as_slice()) {
        return Ok(ConfigOption::SNGLKUPREOP);
    }
    let a_no_tld_query: [u8; 12] = ['n' as u8, 'o' as u8, '-' as u8, 't' as u8, 'l' as u8, 'd' as u8, '-' as u8, 'q' as u8, 'u' as u8, 'e' as u8, 'r' as u8, 'y' as u8];
    proof {
        assert(a_no_tld_query@ =~= kw_no_tld_query());
    }
    if bytes_eq(key, a_no_tld_query.as_slice()) {
        return Ok(ConfigOption::NOTLDQUERY);
    }
    let a_use_vc: [u8; 6] = ['u' as u8, 's' as u8, 'e' as u8, '-' as u8, 'v' as u8, 'c' as u8];
    proof {
        assert(a_use_vc@ =~= kw_use_vc());
    }
    if bytes_eq(key, a_use_vc.as_slice()) {
        return Ok(ConfigOption::USEVC);
    }
    let a_no_reload: [u8; 9] = ['n' as u8, 'o' as u8, '-' as u8, 'r' as u8, 'e' as u8, 'l' as u8, 'o' as u8, 'a' as u8, 'd' as u8];
    proof {
        assert(a_no_reload@ =~= kw_no_reload());
    }
    if bytes_eq(key, a_no_reload.as_slice()) {
        return Ok(ConfigOption::NORELOAD);
    }
    let a_trust_ad: [u8; 8] = ['t' as u8, 'r' as u8, 'u' as u8, 's' as u8, 't' as u8, '-' as u8, 'a' as u8, 'd' as u8];
    proof {
        assert(a_trust_ad@ =~= kw_trust_ad());
    }
    if bytes_eq(key, a_trust_ad.as_slice()) {
        return Ok(ConfigOption::TRUSTAD);
    }
        let a_ndots: [u8; 5] = ['n' as u8, 'd' as u8, 'o' as u8, 't' as u8, 's' as u8];
        let a_timeout: [u8; 7] = ['t' as u8, 'i' as u8, 'm' as u8, 'e' as u8, 'o' as u8, 'u' as u8,
            't' as u8];
        let a_attempts: [u8; 8] = ['a' as u8, 't' as u8, 't' as u8, 'e' as u8, 'm' as u8, 'p' as u8,
            't' as u8, 's' as u8];
        proof {
            assert(a_ndots@ =~= kw_ndots());
            assert(a_timeout@ =~= kw_timeout());
            assert(a_attempts@ =~= kw_attempts());
        }
        let is_ndots = bytes_eq(key, a_ndots.as_slice());
        let is_timeout = bytes_eq(key, a_timeout.as_slice());
        let is_attempts = bytes_eq(key, a_attempts.as_slice());
        if is_ndots || is_timeout || is_attempts {
            let empty_payload: Vec<u8> = Vec::new();
            let payload: &[u8] = if ps.len() >= 2 {
                ps[1].as_slice()
            } else {
                empty_payload.as_slice()
            };
            proof {
                if ps@.len() >= 2 {
                    assert(payload@ == split_on(t@, ':' as u8)[1]);
                } else {
                    assert(payload@ =~= Seq::<u8>::empty());
                }
            }
            match parse_usize(payload) {
                Some(v) => if is_ndots {
                    Ok(ConfigOption::NDots(v))
                } else if is_timeout {
                    Ok(ConfigOption::Timeout(v))
                } else {
                    Ok(ConfigOption::Attempts(v))
                },
                None => Err(ParseConfigError::ParseIntError),
            }
        } else {
            let unknown = subrange_vec(key, 0, key.len());
            proof {
                assert(unknown@ =~= key@);
            }
            Err(ParseConfigError::UnknownOption(unknown))
        }
    }
}

/// The parse of one sort-list token: an IP address, optionally followed
/// by `/` and a netmask address; anything past a second `/` is ignored.
pub open spec fn spec_parse_ip_pair(t: Seq<u8>) -> Result<IPPair, ConfigErrorView> {
    let ps = split_on(t, '/' as u8);
    match spec_parse_ip(ps[0]) {
        None => Err(ConfigErrorView::IPAddrParseError),
        Some(a) => if ps.len() >= 2 {
            match spec_parse_ip(ps[1]) {
                None => Err(ConfigErrorView::IPAddrParseError),
                Some(m) => Ok(IPPair(a, Some(m))),
            }
        } else {
            Ok(IPPair(a, None))
        },
    }
}

impl IPPair {
    /// Parse one sort-list token.
    pub fn parse(t: &[u8]) -> (r: Result<IPPair, ParseConfigError>)
        ensures
            ({
                let s = spec_parse_ip_pair(t@);
                match r {
                    Ok(p) => s == Ok::<IPPair, ConfigErrorView>(p),
                    Err(e) => s == Err::<IPPair, ConfigErrorView>(e@),
                }
            }),
    {
        let ps = split_on_exec(t, '/' as u8);
        proof {
            lemma_split_on_len(t@, '/' as u8);
            assert(ps@[0]@ == split_on(t@, '/' as u8)[0]);
        }
        match parse_ip(ps[0].as_slice()) {
            None => Err(ParseConfigError::IPAddrParseError),
            Some(a) => if ps.len() >= 2 {
                proof {
                    assert(ps@[1]@ == split_on(t@, '/' as u8)[1]);
                }
                match parse_ip(ps[1].as_slice()) {
                    None => Err(ParseConfigError::IPAddrParseError),
                    Some(m) => Ok(IPPair(a, Some(m))),
                }
            } else {
                Ok(IPPair(a, None))
            },
        }
    }
}

/// The parse of a whitespace-split sort-list token sequence: all the
/// pairs in order, or the first error.
pub open spec fn spec_parse_pairs(ts: Seq<Seq<u8>>) -> Result<Seq<IPPair>, ConfigErrorView>
    decreases ts.len(),
{
    if ts.len() == 0 {
        Ok(Seq::<IPPair>::empty())
    } else {
        match spec_parse_ip_pair(ts[0]) {
            Err(e) => Err(e),
            Ok(p) => match spec_parse_pairs(ts.drop_first()) {
                Ok(rest) => Ok(seq![p] + rest),
                Err(e) => Err(e),
            },
        }
    }
}

/// Parse every sort-list token, stopping at the first error.
fn parse_pairs_exec(toks: &Vec<Vec<u8>>) -> (r: Result<Vec<IPPair>, ParseConfigError>)
    ensures
        ({
            let s = spec_parse_pairs(views_of(toks@));
            match r {
                Ok(v) => s == Ok::<Seq<IPPair>, ConfigErrorView>(v@),
                Err(e) => s == Err::<Seq<IPPair>, ConfigErrorView>(e@),
            }
        }),
{
    let ghost tv = views_of(toks@);
    let mut acc: Vec<IPPair> = Vec::new();
    let mut i: usize = 0;
    let n: usize = toks.len();
    proof {
        assert(tv.skip(0) =~= tv);
        match spec_parse_pairs(tv) {
            Ok(rest) => {
                assert(Seq::<IPPair>::empty() + rest =~= rest);
            },
            Err(e) => {},
        }
    }
    while i < n
        invariant
            n == toks@.len(),
            0 <= i <= n,
            tv == views_of(toks@),
            spec_parse_pairs(tv) == (match spec_parse_pairs(tv.skip(i as int)) {
                Ok(rest) => Ok::<Seq<IPPair>, ConfigErrorView>(acc@ + rest),
                Err(e) => Err::<Seq<IPPair>, ConfigErrorView>(e),
            }),
        decreases n - i,
    {
        proof {
            assert(tv.skip(i as int)[0] == toks@[i as int]@);
            assert(tv.skip(i as int).drop_first() =~= tv.skip(i + 1));
        }
        match IPPair::parse(toks[i].as_slice()) {
            Ok(p) => {
                proof {
                    match spec_parse_pairs(tv.skip(i + 1)) {
                        Ok(rest) => {
                            assert(acc@ + (seq![p] + rest) =~= acc@.push(p) + rest);
                        },
                        Err(e) => {},
                    }
                }
                acc.push(p);
            },
            Err(e) => {
                return Err(e);
            },
        }
        i += 1;
    }
    proof {
        assert(tv.skip(n as int) =~= Seq::<Seq<u8>>::empty());
        assert(acc@ + Seq::<IPPair>::empty() =~= acc@);
    }
    Ok(acc)
}

/// The parse of a whitespace-split `options` token sequence: all the
/// options in order, or the first error.
pub open spec fn spec_parse_options(ts: Seq<Seq<u8>>) -> Result<Seq<ConfigOption>, ConfigErrorView>
    decreases ts.len(),
{
    if ts.len() == 0 {
        Ok(Seq::<ConfigOption>::empty())
    } else {
        match spec_parse_option(ts[0]) {
            Err(e) => Err(e),
            Ok(o) => match spec_parse_options(ts.drop_first()) {
                Ok(rest) => Ok(seq![o] + rest),
                Err(e) => Err(e),
            },
        }
    }
}

/// Parse every `options` token, stopping at the first error.
fn parse_options_exec(toks: &Vec<Vec<u8>>) -> (r: Result<Vec<ConfigOption>, ParseConfigError>)
    ensures
        ({
            let s = spec_parse_options(views_of(toks@));
            match r {
                Ok(v) => s == Ok::<Seq<ConfigOption>, ConfigErrorView>(v@),
                Err(e) => s == Err::<Seq<ConfigOption>, ConfigErrorView>(e@),
            }
        }),
{
    let ghost tv = views_of(toks@);
    let mut acc: Vec<ConfigOption> = Vec::new();
    let mut i: usize = 0;
    let n: usize = toks.len();
    proof {
        assert(tv.skip(0) =~= tv);
        match spec_parse_options(tv) {
            Ok(rest) => {
                assert(Seq::<ConfigOption>::empty() + rest =~= rest);
            },
            Err(e) => {},
        }
    }
    while i < n
        invariant
            n == toks@.len(),
            0 <= i <= n,
            tv == views_of(toks@),
            spec_parse_options(tv) == (match spec_parse_options(tv.skip(i as int)) {
                Ok(rest) => Ok::<Seq<ConfigOption>, ConfigErrorView>(acc@ + rest),
                Err(e) => Err::<Seq<ConfigOption>, ConfigErrorView>(e),
            }),
        decreases n - i,
    {
        proof {
            assert(tv.skip(i as int)[0] == toks@[i as int]@);
            assert(tv.skip(i as int).drop_first() =~= tv.skip(i + 1));
        }
        match ConfigOption::parse(toks[i].as_slice()) {
            Ok(o) => {
                proof {
                    match spec_parse_options(tv.skip(i + 1)) {
                        Ok(rest) => {
                            assert(acc@ + (seq![o] + rest) =~= acc@.push(o) + rest);
                        },
                        Err(e) => {},
                    }
                }
                acc.push(o);
            },
            Err(e) => {
                return Err(e);
            },
        }
        i += 1;
    }
    proof {
        assert(tv.skip(n as int) =~= Seq::<Seq<u8>>::empty());
        assert(acc@ + Seq::<ConfigOption>::empty() =~= acc@);
    }
    Ok(acc)
}

/// One parsed directive line: the transient per-line value folded into
/// the final `Config`.
#[derive(Debug, PartialEq, Eq)]
pub enum ConfigItem {
    Nameserver(IpAddr),
    Domain(Vec<u8>),
    SearchDomains(Vec<Vec<u8>>),
    SortList(Vec<IPPair>),
    Options(Vec<ConfigOption>),
}

/// The mathematical content of a `ConfigItem`.
pub ghost enum ConfigItemView {
    Nameserver(IpAddr),
    Domain(Seq<u8>),
    SearchDomains(Seq<Seq<u8>>),
    SortList(Seq<IPPair>),
    Options(Seq<ConfigOption>),
}

impl View for ConfigItem {
    type V = ConfigItemView;

    open spec fn view(&self) -> ConfigItemView {
        match self {
            ConfigItem::Nameserver(ip) => ConfigItemView::Nameserver(*ip),
            ConfigItem::Domain(d) => ConfigItemView::Domain(d@),
            ConfigItem::SearchDomains(ds) => ConfigItemView::SearchDomains(views_of(ds@)),
            ConfigItem::SortList(ps) => ConfigItemView::SortList(ps@),
            ConfigItem::Options(os) => ConfigItemView::Options(os@),
        }
    }
}

/// The mathematical contents of a sequence of `ConfigItem`s.
pub open spec fn item_views(items: Seq<ConfigItem>) -> Seq<ConfigItemView> {
    Seq::new(items.len(), |i: int| items[i]@)
}

/// The parse of one surviving configuration line, classified by its
/// leading keyword: a `starts_with` test, the keyword stripped, the
/// remainder interpreted.
pub open spec fn spec_parse_config_line(l: Seq<u8>) -> Result<ConfigItemView, ConfigErrorView> {
    if starts_with(l, kw_nameserver()) {
        match spec_parse_ip(trim(l.skip(10))) {
            Some(ip) => Ok(ConfigItemView::Nameserver(ip)),
            None => Err(ConfigErrorView::IPAddrParseError),
        }
    } else if starts_with(l, kw_domain()) {
        Ok(ConfigItemView::Domain(trim(l.skip(6))))
    } else if starts_with(l, kw_search()) {
        Ok(ConfigItemView::SearchDomains(split_ws(l.skip(6))))
    } else if starts_with(l, kw_sortlist()) {
        match spec_parse_pairs(split_ws(l.skip(8))) {
            Ok(ps) => Ok(ConfigItemView::SortList(ps)),
            Err(e) => Err(e),
        }
    } else if starts_with(l, kw_options()) {
        match spec_parse_options(split_ws(l.skip(7))) {
            Ok(os) => Ok(ConfigItemView::Options(os)),
            Err(e) => Err(e),
        }
    } else {
        Err(ConfigErrorView::UnknownOption(l))
    }
}

impl ConfigItem {
    /// Parse one surviving configuration line.
    pub fn parse(l: &[u8]) -> (r: Result<ConfigItem, ParseConfigError>)
        ensures
            ({
                let s = spec_parse_config_line(l@);
                match r {
                    Ok(it) => s == Ok::<ConfigItemView, ConfigErrorView>(it@),
                    Err(e) => s == Err::<ConfigItemView, ConfigErrorView>(e@),
                }
            }),
    {
        let a_nameserver: [u8; 10] = ['n' as u8, 'a' as u8, 'm' as u8, 'e' as u8, 's' as u8,
            'e' as u8, 'r' as u8, 'v' as u8, 'e' as u8, 'r' as u8];
        let a_domain: [u8; 6] = ['d' as u8, 'o' as u8, 'm' as u8, 'a' as u8, 'i' as u8, 'n' as u8];
        let a_search: [u8; 6] = ['s' as u8, 'e' as u8, 'a' as u8, 'r' as u8, 'c' as u8, 'h' as u8];
        let a_sortlist: [u8; 8] = ['s' as u8, 'o' as u8, 'r' as u8, 't' as u8, 'l' as u8, 'i' as u8,
            's' as u8, 't' as u8];
        let a_options: [u8; 7] = ['o' as u8, 'p' as u8, 't' as u8, 'i' as u8, 'o' as u8, 'n' as u8,
            's' as u8];
        proof {
            assert(a_nameserver@ =~= kw_nameserver());
            assert(a_domain@ =~= kw_domain());
            assert(a_search@ =~= kw_search());
            assert(a_sortlist@ =~= kw_sortlist());
            assert(a_options@ =~= kw_options());
        }
        if starts_with_exec(l, a_nameserver.as_slice()) {
            let rest = subrange_vec(l, 10, l.len());
            proof {
                assert(rest@ =~= l@.skip(10));
            }
            let t = trim_exec(rest.as_slice());
            match parse_ip(t.as_slice()) {
                Some(ip) => Ok(ConfigItem::Nameserver(ip)),
                None => Err(ParseConfigError::IPAddrParseError),
            }
        } else if starts_with_exec(l, a_domain.as_slice()) {
            let rest = subrange_vec(l, 6, l.len());
            proof {
                assert(rest@ =~= l@.skip(6));
            }
            Ok(ConfigItem::Domain(trim_exec(rest.as_slice())))
        } else if starts_with_exec(l, a_search.as_slice()) {
            let rest = subrange_vec(l, 6, l.len());
            proof {
                assert(rest@ =~= l@.skip(6));
            }
            Ok(ConfigItem::SearchDomains(split_ws_exec(rest.as_slice())))
        } else if starts_with_exec(l, a_sortlist.as_slice()) {
            let rest = subrange_vec(l, 8, l.len());
            proof {
                assert(rest@ =~= l@.skip(8));
            }
            let toks = split_ws_exec(rest.as_slice());
            match parse_pairs_exec(&toks) {
                Ok(ps) => Ok(ConfigItem::SortList(ps)),
                Err(e) => Err(e),
            }
        } else if starts_with_exec(l, a_options.as_slice()) {
            let rest = subrange_vec(l, 7, l.len());
            proof {
                assert(rest@ =~= l@.skip(7));
            }
            let toks = split_ws_exec(rest.as_slice());
            match parse_options_exec(&toks) {
                Ok(os) => Ok(ConfigItem::Options(os)),
                Err(e) => Err(e),
            }
        } else {
            let unknown = subrange_vec(l, 0, l.len());
            proof {
                assert(unknown@ =~= l@);
            }
            Err(ParseConfigError::UnknownOption(unknown))
        }
    }
}

/// The parsed resolver configuration: every matching directive of every
/// surviving line, accumulated in file order.
#[derive(Debug)]
pub struct Config {
    pub nameservers: Vec<IpAddr>,
    pub search_domains: Vec<Vec<u8>>,
    pub sort_list: Vec<IPPair>,
    pub options: Vec<ConfigOption>,
}

/// The mathematical content of a `Config`.
pub ghost struct ConfigView {
    pub nameservers: Seq<IpAddr>,
    pub search_domains: Seq<Seq<u8>>,
    pub sort_list: Seq<IPPair>,
    pub options: Seq<ConfigOption>,
}

impl View for Config {
    type V = ConfigView;

    open spec fn view(&self) -> ConfigView {
        ConfigView {
            nameservers: self.nameservers@,
            search_domains: views_of(self.search_domains@),
            sort_list: self.sort_list@,
            options: self.options@,
        }
    }
}

/// The configuration with nothing accumulated yet.
pub open spec fn empty_config() -> ConfigView {
    ConfigView {
        nameservers: Seq::<IpAddr>::empty(),
        search_domains: Seq::<Seq<u8>>::empty(),
        sort_list: Seq::<IPPair>::empty(),
        options: Seq::<ConfigOption>::empty(),
    }
}

/// Fold one parsed directive into the configuration: every variant
/// appends, nothing is dropped or overwritten.
pub open spec fn add_item(c: ConfigView, it: ConfigItemView) -> ConfigView {
    match it {
        ConfigItemView::Nameserver(ip) => ConfigView {
            nameservers: c.nameservers.push(ip),
            ..c
        },
        ConfigItemView::Domain(d) => ConfigView { search_domains: c.search_domains.push(d), ..c },
        ConfigItemView::SearchDomains(ds) => ConfigView {
            search_domains: c.search_domains + ds,
            ..c
        },
        ConfigItemView::SortList(ps) => ConfigView { sort_list: c.sort_list + ps, ..c },
        ConfigItemView::Options(os) => ConfigView { options: c.options + os, ..c },
    }
}

/// The configuration folded from a sequence of parsed directives, in
/// order.
pub open spec fn fold_items(items: Seq<ConfigItemView>) -> ConfigView
    decreases items.len(),
{
    if items.len() == 0 {
        empty_config()
    } else {
        add_item(fold_items(items.drop_last()), items.last())
    }
}

impl Default for Config {
    /// The empty configuration.
    fn default() -> (r: Config)
        ensures
            r@ == empty_config(),
    {
        let r = Config {
            nameservers: Vec::new(),
            search_domains: Vec::new(),
            sort_list: Vec::new(),
            options: Vec::new(),
        };
        proof {
            assert(views_of(r.search_domains@) =~= Seq::<Seq<u8>>::empty());
        }
        r
    }
}

impl Config {
    /// Fold a sequence of parsed directives into one configuration.
    pub fn from_items(items: Vec<ConfigItem>) -> (r: Config)
        ensures
            r@ == fold_items(item_views(items@)),
    {
        let ghost iv = item_views(items@);
        let mut rem = items;
        let mut c = Config::default();
        let ghost total = iv.len();
        let ghost mut i: int = 0;
        proof {
            assert(iv.take(0) =~= Seq::<ConfigItemView>::empty());
            assert(item_views(rem@) =~= iv.skip(0));
        }
        while rem.len() > 0
            invariant
                0 <= i,
                i + rem@.len() == total == iv.len(),
                item_views(rem@) == iv.skip(i),
                c@ == fold_items(iv.take(i)),
            decreases rem@.len(),
        {
            proof {
                assert(item_views(rem@)[0] == rem@[0]@);
                assert(iv.take(i + 1).drop_last() =~= iv.take(i));
                assert(iv.take(i + 1).last() == iv[i]);
            }
            let ghost rem_before = rem@;
            let item = rem.remove(0);
            proof {
                assert(item@ == iv[i]);
                assert(item_views(rem@) =~= iv.skip(i + 1)) by {
                    assert(rem@ =~= rem_before.drop_first());
                    assert forall|k: int| 0 <= k < rem@.len() implies item_views(rem@)[k] == iv.skip(
                        i + 1,
                    )[k] by {
                        assert(rem@[k] == rem_before[k + 1]);
                        assert(item_views(rem_before)[k + 1] == rem_before[k + 1]@);
                    }
                }
            }
            match item {
                ConfigItem::Nameserver(ip) => {
                    c.nameservers.push(ip);
                },
                ConfigItem::Domain(d) => {
                    c.search_domains.push(d);
                    proof {
                        assert(views_of(c.search_domains@) =~= fold_items(
                            iv.take(i + 1),
                        ).search_domains);
                    }
                },
                ConfigItem::SearchDomains(ds) => {
                    let mut ds = ds;
                    c.search_domains.append(&mut ds);
                    proof {
                        assert(views_of(c.search_domains@) =~= fold_items(
                            iv.take(i + 1),
                        ).search_domains);
                    }
                },
                ConfigItem::SortList(ps) => {
                    let mut ps = ps;
                    c.sort_list.append(&mut ps);
                },
                ConfigItem::Options(os) => {
                    let mut os = os;
                    c.options.append(&mut os);
                },
            }
            proof {
                i = i + 1;
            }
        }
        proof {
            assert(iv.take(total as int) =~= iv);
        }
        c
    }
}

/// The parse of a sequence of surviving lines: all the directives in
/// order, or the first error.
pub open spec fn spec_parse_items(ls: Seq<Seq<u8>>) -> Result<Seq<ConfigItemView>, ConfigErrorView>
    decreases ls.len(),
{
    if ls.len() == 0 {
        Ok(Seq::<ConfigItemView>::empty())
    } else {
        match spec_parse_config_line(ls[0]) {
            Err(e) => Err(e),
            Ok(it) => match spec_parse_items(ls.drop_first()) {
                Ok(rest) => Ok(seq![it] + rest),
                Err(e) => Err(e),
            },
        }
    }
}

/// The parse of a whole resolver configuration text: the configuration
/// folded from every surviving line's directive, or the first error.
pub open spec fn spec_parse_config(s: Seq<u8>) -> Result<ConfigView, ConfigErrorView> {
    match spec_parse_items(content_lines(s)) {
        Ok(items) => Ok(fold_items(items)),
        Err(e) => Err(e),
    }
}

/// Parse a resolver configuration text: split it into lines, discard
/// empty, `#`-comment and space-indented lines, parse every remaining
/// line into its directive, and accumulate the directives in file order;
/// the first malformed line fails the whole parse.
#[verifier::rlimit(50)]
pub fn parse(input: &[u8]) -> (r: Result<Config, ParseConfigError>)
    ensures
        ({
            let s = spec_parse_config(input@);
            match r {
                Ok(c) => s == Ok::<ConfigView, ConfigErrorView>(c@),
                Err(e) => s == Err::<ConfigView, ConfigErrorView>(e@),
            }
        }),
{
    let ls = content_lines_exec(input);
    let ghost lv = content_lines(input@);
    let mut items: Vec<ConfigItem> = Vec::new();
    let mut i: usize = 0;
    let n: usize = ls.len();
    proof {
        assert(lv.skip(0) =~= lv);
        assert(item_views(items@) =~= Seq::<ConfigItemView>::empty());
        match spec_parse_items(lv) {
            Ok(rest) => {
                assert(Seq::<ConfigItemView>::empty() + rest =~= rest);
            },
            Err(e) => {},
        }
    }
    while i < n
        invariant
            n == ls@.len(),
            0 <= i <= n,
            lv == views_of(ls@),
            lv == content_lines(input@),
            spec_parse_items(lv) == (match spec_parse_items(lv.skip(i as int)) {
                Ok(rest) => Ok::<Seq<ConfigItemView>, ConfigErrorView>(item_views(items@) + rest),
                Err(e) => Err::<Seq<ConfigItemView>, ConfigErrorView>(e),
            }),
        decreases n - i,
    {
        proof {
            assert(lv.skip(i as int)[0] == ls@[i as int]@);
            assert(lv.skip(i as int).drop_first() =~= lv.skip(i + 1));
        }
        match ConfigItem::parse(ls[i].as_slice()) {
            Ok(it) => {
                proof {
                    match spec_parse_items(lv.skip(i + 1)) {
                        Ok(rest) => {
                            assert(item_views(items@.push(it)) =~= item_views(items@).push(it@));
                            assert(item_views(items@) + (seq![it@] + rest) =~= item_views(
                                items@,
                            ).push(it@) + rest);
                        },
                        Err(e) => {},
                    }
                }
                items.push(it);
            },
            Err(e) => {
                return Err(e);
            },
        }
        i += 1;
    }
    proof {
        assert(lv.skip(n as int) =~= Seq::<Seq<u8>>::empty());
        assert(item_views(items@) + Seq::<ConfigItemView>::empty() =~= item_views(items@));
    }
    Ok(Config::from_items(items))
}

/// Parsing is deterministic: the parsed configuration is a function of
/// the input text alone, so identical inputs parse to equal results.
pub proof fn lemma_parse_config_deterministic(s1: Seq<u8>, s2: Seq<u8>)
    requires
        s1 == s2,
    ensures
        spec_parse_config(s1) == spec_parse_config(s2),
{
}

/// The nameservers contributed by one directive.
pub open spec fn item_nameservers(it: ConfigItemView) -> Seq<IpAddr> {
    match it {
        ConfigItemView::Nameserver(ip) => seq![ip],
        _ => Seq::<IpAddr>::empty(),
    }
}

/// The search domains contributed by one directive: one for `domain`,
/// all of them for `search`.
pub open spec fn item_domains(it: ConfigItemView) -> Seq<Seq<u8>> {
    match it {
        ConfigItemView::Domain(d) => seq![d],
        ConfigItemView::SearchDomains(ds) => ds,
        _ => Seq::<Seq<u8>>::empty(),
    }
}

/// The sort-list pairs contributed by one directive.
pub open spec fn item_sort_list(it: ConfigItemView) -> Seq<IPPair> {
    match it {
        ConfigItemView::SortList(ps) => ps,
        _ => Seq::<IPPair>::empty(),
    }
}

/// The options contributed by one directive.
pub open spec fn item_options(it: ConfigItemView) -> Seq<ConfigOption> {
    match it {
        ConfigItemView::Options(os) => os,
        _ => Seq::<ConfigOption>::empty(),
    }
}

pub open spec fn all_nameservers(items: Seq<ConfigItemView>) -> Seq<IpAddr>
    decreases items.len(),
{
    if items.len() == 0 {
        Seq::<IpAddr>::empty()
    } else {
        all_nameservers(items.drop_last()) + item_nameservers(items.last())
    }
}

pub open spec fn all_domains(items: Seq<ConfigItemView>) -> Seq<Seq<u8>>
    decreases items.len(),
{
    if items.len() == 0 {
        Seq::<Seq<u8>>::empty()
    } else {
        all_domains(items.drop_last()) + item_domains(items.last())
    }
}

pub open spec fn all_sort_lists(items: Seq<ConfigItemView>) -> Seq<IPPair>
    decreases items.len(),
{
    if items.len() == 0 {
        Seq::<IPPair>::empty()
    } else {
        all_sort_lists(items.drop_last()) + item_sort_list(items.last())
    }
}

pub open spec fn all_options(items: Seq<ConfigItemView>) -> Seq<ConfigOption>
    decreases items.len(),
{
    if items.len() == 0 {
        Seq::<ConfigOption>::empty()
    } else {
        all_options(items.drop_last()) + item_options(items.last())
    }
}

/// Directive accumulation is order-preserving and non-overwriting: each
/// of the four sequences of the folded configuration is exactly the
/// concatenation, in directive order, of every directive's contribution;
/// nothing is dropped, deduplicated or overwritten.
pub proof fn lemma_fold_items_accumulates(items: Seq<ConfigItemView>)
    ensures
        fold_items(items).nameservers == all_nameservers(items),
        fold_items(items).search_domains == all_domains(items),
        fold_items(items).sort_list == all_sort_lists(items),
        fold_items(items).options == all_options(items),
    decreases items.len(),
{
    if items.len() > 0 {
        lemma_fold_items_accumulates(items.drop_last());
        let c = fold_items(items.drop_last());
        let it = items.last();
        assert(c.nameservers + item_nameservers(it) =~= add_item(c, it).nameservers);
        assert(c.search_domains + item_domains(it) =~= add_item(c, it).search_domains);
        assert(c.sort_list + item_sort_list(it) =~= add_item(c, it).sort_list);
        assert(c.options + item_options(it) =~= add_item(c, it).options);
    }
}

/// Empty lines, `#` comment lines and space-indented lines never affect
/// a resolver-configuration parse, whatever they hold: inserting one,
/// with its line feed, at any line boundary leaves the result unchanged,
/// and in particular such a line never causes an error.
pub proof fn lemma_config_noise_line_ignored(s1: Seq<u8>, l: Seq<u8>, s2: Seq<u8>)
    requires
        s1.len() > 0 ==> s1.last() == '\n' as u8,
        forall|j: int| 0 <= j < l.len() ==> l[j] != '\n' as u8,
        crate::text::is_noise_line(l),
    ensures
        spec_parse_config(s1 + l + seq!['\n' as u8] + s2) == spec_parse_config(s1 + s2),
{
    crate::text::lemma_noise_line_ignored(s1, l, s2);
}

/// A surviving line that does not parse fails the whole parse: an
/// unrecognized directive keyword, an invalid IP token or a bad numeric
/// payload anywhere yields an error, never a partial configuration.
pub proof fn lemma_config_bad_line_fails(s: Seq<u8>, i: int)
    requires
        0 <= i < content_lines(s).len(),
        spec_parse_config_line(content_lines(s)[i]) is Err,
    ensures
        spec_parse_config(s) is Err,
{
    lemma_items_err_at(content_lines(s), i);
}

proof fn lemma_items_err_at(ls: Seq<Seq<u8>>, i: int)
    requires
        0 <= i < ls.len(),
        spec_parse_config_line(ls[i]) is Err,
    ensures
        spec_parse_items(ls) is Err,
    decreases i,
{
    if i > 0 {
        match spec_parse_config_line(ls[0]) {
            Err(e) => {},
            Ok(it) => {
                assert(ls.drop_first()[i - 1] == ls[i]);
                lemma_items_err_at(ls.drop_first(), i - 1);
            },
        }
    }
}

} // verus!
