//! Hosts file parsing: static IP-address-to-name mappings, one record
//! per surviving line.
use vstd::prelude::*;

use crate::ip::{parse_ip, spec_parse_ip, IpAddr};
use crate::text::{content_lines, content_lines_exec, split_ws, split_ws_exec, views_of};

verus! {

/// One name-resolution record: an IP address and the names listed after
/// it on one line, in file order.
#[derive(Debug, PartialEq, Eq)]
pub struct Host {
    pub ip: IpAddr,
    pub names: Vec<Vec<u8>>,
}

/// The mathematical content of a `Host`.
pub ghost struct HostView {
    pub ip: IpAddr,
    pub names: Seq<Seq<u8>>,
}

impl View for Host {
    type V = HostView;

    open spec fn view(&self) -> HostView {
        HostView { ip: self.ip, names: views_of(self.names@) }
    }
}

/// The mathematical contents of a sequence of `Host`s.
pub open spec fn host_views(hs: Seq<Host>) -> Seq<HostView> {
    Seq::new(hs.len(), |i: int| hs[i]@)
}

/// Why a hosts file failed to parse.
#[derive(Debug, PartialEq, Eq)]
pub enum ParseHostsError {
    /// A line's first token is not an IP address.
    IPAddrParseError,
    /// The input could not be read; produced only by callers that do the
    /// reading, never by the parser itself.
    IOError,
}

/// The mathematical content of a `ParseHostsError`.
pub ghost enum HostsErrorView {
    IPAddrParseError,
    IOError,
}

impl View for ParseHostsError {
    type V = HostsErrorView;

    open spec fn view(&self) -> HostsErrorView {
        match self {
            ParseHostsError::IPAddrParseError => HostsErrorView::IPAddrParseError,
            ParseHostsError::IOError => HostsErrorView::IOError,
        }
    }
}

impl ParseHostsError {
    /// A short description of the failure, standing in for `Display`,
    /// which a verified type cannot implement.
    pub fn message(&self) -> (r: &'static str)
        ensures
            r@ == match self {
                ParseHostsError::IPAddrParseError => "invalid IP address syntax"@,
                ParseHostsError::IOError => "the input could not be read"@,
            },
    {
        match self {
            ParseHostsError::IPAddrParseError => "invalid IP address syntax",
            ParseHostsError::IOError => "the input could not be read",
        }
    }
}

/// The parse of one surviving hosts line: the first whitespace-separated
/// token must be an IP address, and the remaining tokens are the names,
/// however many there are.
pub open spec fn spec_parse_host_line(l: Seq<u8>) -> Result<HostView, HostsErrorView> {
    let toks = split_ws(l);
    let first = if toks.len() > 0 {
        toks[0]
    } else {
        Seq::<u8>::empty()
    };
    match spec_parse_ip(first) {
        None => Err(HostsErrorView::IPAddrParseError),
        Some(ip) => Ok(
            HostView {
                ip,
                names: if toks.len() > 0 {
                    toks.drop_first()
                } else {
                    Seq::<Seq<u8>>::empty()
                },
            },
        ),
    }
}

impl Host {
    /// Pack an address and its names into a record.
    pub fn new(ip: IpAddr, names: Vec<Vec<u8>>) -> (r: Host)
        ensures
            r@ == (HostView { ip, names: views_of(names@) }),
    {
        Host { ip, names }
    }

    /// Parse one surviving hosts line.
    pub fn parse(l: &[u8]) -> (r: Result<Host, ParseHostsError>)
        ensures
            ({
                let s = spec_parse_host_line(l@);
                match r {
                    Ok(h) => s == Ok::<HostView, HostsErrorView>(h@),
                    Err(e) => s == Err::<HostView, HostsErrorView>(e@),
                }
            }),
    {
        let toks = split_ws_exec(l);
        let ghost tv = split_ws(l@);
        if toks.len() == 0 {
            proof {
                assert(spec_parse_ip(Seq::<u8>::empty()) is None);
            }
            Err(ParseHostsError::IPAddrParseError)
        } else {
            proof {
                assert(toks@[0]@ == tv[0]);
            }
            match parse_ip(toks[0].as_slice()) {
                None => Err(ParseHostsError::IPAddrParseError),
                Some(ip) => {
                    let mut names = toks;
                    let ghost before = names@;
                    let _address_token = names.remove(0);
                    proof {
                        assert(views_of(names@) =~= tv.drop_first()) by {
                            assert(names@ =~= before.drop_first());
                            assert forall|k: int| 0 <= k < names@.len() implies views_of(
                                names@,
                            )[k] == tv.drop_first()[k] by {
                                assert(names@[k] == before[k + 1]);
                                assert(views_of(before)[k + 1] == before[k + 1]@);
                            }
                        }
                    }
                    Ok(Host { ip, names })
                },
            }
        }
    }
}

/// The parse of a sequence of surviving lines: all the records in order,
/// or the first error.
pub open spec fn spec_parse_host_lines(ls: Seq<Seq<u8>>) -> Result<Seq<HostView>, HostsErrorView>
    decreases ls.len(),
{
    if ls.len() == 0 {
        Ok(Seq::<HostView>::empty())
    } else {
        match spec_parse_host_line(ls[0]) {
            Err(e) => Err(e),
            Ok(h) => match spec_parse_host_lines(ls.drop_first()) {
                Ok(rest) => Ok(seq![h] + rest),
                Err(e) => Err(e),
            },
        }
    }
}

/// The parse of a whole hosts file text: every surviving line's record,
/// in file order, or the first error.
pub open spec fn spec_parse_hosts(s: Seq<u8>) -> Result<Seq<HostView>, HostsErrorView> {
    spec_parse_host_lines(content_lines(s))
}

/// Parse a hosts file text: split it into lines, discard empty,
/// `#`-comment and space-indented lines, and parse every remaining line
/// into a record; the first malformed line fails the whole parse.
#[verifier::rlimit(50)]
pub fn parse(input: &[u8]) -> (r: Result<Vec<Host>, ParseHostsError>)
    ensures
        ({
            let s = spec_parse_hosts(input@);
            match r {
                Ok(hs) => s == Ok::<Seq<HostView>, HostsErrorView>(host_views(hs@)),
                Err(e) => s == Err::<Seq<HostView>, HostsErrorView>(e@),
            }
        }),
{
    let ls = content_lines_exec(input);
    let ghost lv = content_lines(input@);
    let mut hosts: Vec<Host> = Vec::new();
    let mut i: usize = 0;
    let n: usize = ls.len();
    proof {
        assert(lv.skip(0) =~= lv);
        assert(host_views(hosts@) =~= Seq::<HostView>::empty());
        match spec_parse_host_lines(lv) {
            Ok(rest) => {
                assert(Seq::<HostView>::empty() + rest =~= rest);
            },
            Err(e) => {},
        }
    }
    while i < n
        invariant
            n == ls@.len(),
            0 <= i <= n,
            lv == views_of(ls@),
            lv == content_lines(input@),
            spec_parse_host_lines(lv) == (match spec_parse_host_lines(lv.skip(i as int)) {
                Ok(rest) => Ok::<Seq<HostView>, HostsErrorView>(host_views(hosts@) + rest),
                Err(e) => Err::<Seq<HostView>, HostsErrorView>(e),
            }),
        decreases n - i,
    {
        proof {
            assert(lv.skip(i as int)[0] == ls@[i as int]@);
            assert(lv.skip(i as int).drop_first() =~= lv.skip(i + 1));
        }
        match Host::parse(ls[i].as_slice()) {
            Ok(h) => {
                proof {
                    match spec_parse_host_lines(lv.skip(i + 1)) {
                        Ok(rest) => {
                            assert(host_views(hosts@.push(h)) =~= host_views(hosts@).push(h@));
                            assert(host_views(hosts@) + (seq![h@] + rest) =~= host_views(
                                hosts@,
                            ).push(h@) + rest);
                        },
                        Err(e) => {},
                    }
                }
                hosts.push(h);
            },
            Err(e) => {
                return Err(e);
            },
        }
        i += 1;
    }
    proof {
        assert(lv.skip(n as int) =~= Seq::<Seq<u8>>::empty());
        assert(host_views(hosts@) + Seq::<HostView>::empty() =~= host_views(hosts@));
    }
    Ok(hosts)
}

/// Parsing is deterministic: the parsed records are a function of the
/// input text alone, so identical inputs parse to equal results.
pub proof fn lemma_parse_hosts_deterministic(s1: Seq<u8>, s2: Seq<u8>)
    requires
        s1 == s2,
    ensures
        spec_parse_hosts(s1) == spec_parse_hosts(s2),
{
}

/// Empty lines, `#` comment lines and space-indented lines never affect
/// a hosts-file parse, whatever they hold: inserting one, with its line
/// feed, at any line boundary leaves the result unchanged, and in
/// particular such a line never causes an error.
pub proof fn lemma_hosts_noise_line_ignored(s1: Seq<u8>, l: Seq<u8>, s2: Seq<u8>)
    requires
        s1.len() > 0 ==> s1.last() == '\n' as u8,
        forall|j: int| 0 <= j < l.len() ==> l[j] != '\n' as u8,
        crate::text::is_noise_line(l),
    ensures
        spec_parse_hosts(s1 + l + seq!['\n' as u8] + s2) == spec_parse_hosts(s1 + s2),
{
    crate::text::lemma_noise_line_ignored(s1, l, s2);
}

/// A surviving line whose first token is not an IP address fails the
/// whole parse: no partial record list is returned.
pub proof fn lemma_hosts_bad_line_fails(s: Seq<u8>, i: int)
    requires
        0 <= i < content_lines(s).len(),
        spec_parse_host_line(content_lines(s)[i]) is Err,
    ensures
        spec_parse_hosts(s) is Err,
{
    lemma_host_lines_err_at(content_lines(s), i);
}

proof fn lemma_host_lines_err_at(ls: Seq<Seq<u8>>, i: int)
    requires
        0 <= i < ls.len(),
        spec_parse_host_line(ls[i]) is Err,
    ensures
        spec_parse_host_lines(ls) is Err,
    decreases i,
{
    if i > 0 {
        match spec_parse_host_line(ls[0]) {
            Err(e) => {},
            Ok(h) => {
                assert(ls.drop_first()[i - 1] == ls[i]);
                lemma_host_lines_err_at(ls.drop_first(), i - 1);
            },
        }
    }
}

} // verus!
