//! IP addresses as plain values, with verified textual parsing.
//!
//! The grammar follows the standard library's address parser: an IPv4
//! address is four decimal octets without leading zeros; an IPv6 address
//! is colon-separated groups of one to four hexadecimal digits, at most
//! one `::` standing for one or more zero groups, and optionally a
//! trailing embedded IPv4 address supplying the last two groups.
use vstd::prelude::*;

use crate::text::{split_on, split_on_exec, views_of};

verus! {

/// An IP address: a four-octet IPv4 address or an eight-group IPv6
/// address.
#[derive(Debug, Clone, Copy, PartialEq, Eq, Structural)]
pub enum IpAddr {
    V4(u8, u8, u8, u8),
    V6(u16, u16, u16, u16, u16, u16, u16, u16),
}

pub open spec fn is_digit(b: u8) -> bool {
    '0' as u8 <= b <= '9' as u8
}

pub open spec fn all_digits(s: Seq<u8>) -> bool {
    forall|i: int| 0 <= i < s.len() ==> is_digit(s[i])
}

/// The value of a decimal digit string.
pub open spec fn dec_val(s: Seq<u8>) -> int
    decreases s.len(),
{
    if s.len() == 0 {
        0
    } else {
        10 * dec_val(s.drop_last()) + (s.last() - '0' as u8)
    }
}

pub open spec fn pow10(n: nat) -> int
    decreases n,
{
    if n == 0 {
        1
    } else {
        10 * pow10((n - 1) as nat)
    }
}

pub proof fn lemma_dec_val_bound(s: Seq<u8>)
    requires
        all_digits(s),
    ensures
        0 <= dec_val(s) < pow10(s.len()),
    decreases s.len(),
{
    if s.len() > 0 {
        assert(all_digits(s.drop_last())) by {
            assert(forall|i: int|
                0 <= i < s.drop_last().len() ==> s.drop_last()[i] == s[i]);
        }
        lemma_dec_val_bound(s.drop_last());
        assert(is_digit(s.last()));
    }
}

/// A prefix of a digit string never exceeds the whole string's value.
pub proof fn lemma_dec_val_prefix(s: Seq<u8>, i: int)
    requires
        all_digits(s),
        0 <= i <= s.len(),
    ensures
        dec_val(s.take(i)) <= dec_val(s),
    decreases s.len() - i,
{
    if i < s.len() {
        lemma_dec_val_prefix(s, i + 1);
        assert(s.take(i + 1).drop_last() =~= s.take(i));
        assert(s.take(i + 1).last() == s[i]);
        assert(all_digits(s.take(i))) by {
            assert(forall|k: int| 0 <= k < i ==> s.take(i)[k] == s[k]);
        }
        lemma_dec_val_bound(s.take(i));
        assert(dec_val(s.take(i + 1)) == 10 * dec_val(s.take(i)) + (s[i] - '0' as u8));
    } else {
        assert(s.take(i) =~= s);
    }
}

pub open spec fn is_hex_digit(b: u8) -> bool {
    is_digit(b) || 'a' as u8 <= b <= 'f' as u8 || 'A' as u8 <= b <= 'F' as u8
}

pub open spec fn hex_digit_val(b: u8) -> int {
    if is_digit(b) {
        b - '0' as u8
    } else if 'a' as u8 <= b <= 'f' as u8 {
        b - 'a' as u8 + 10
    } else {
        b - 'A' as u8 + 10
    }
}

pub open spec fn all_hex_digits(s: Seq<u8>) -> bool {
    forall|i: int| 0 <= i < s.len() ==> is_hex_digit(s[i])
}

/// The value of a hexadecimal digit string.
pub open spec fn hex_val(s: Seq<u8>) -> int
    decreases s.len(),
{
    if s.len() == 0 {
        0
    } else {
        16 * hex_val(s.drop_last()) + hex_digit_val(s.last())
    }
}

pub open spec fn pow16(n: nat) -> int
    decreases n,
{
    if n == 0 {
        1
    } else {
        16 * pow16((n - 1) as nat)
    }
}

pub proof fn lemma_hex_val_bound(s: Seq<u8>)
    requires
        all_hex_digits(s),
    ensures
        0 <= hex_val(s) < pow16(s.len()),
    decreases s.len(),
{
    if s.len() > 0 {
        assert(all_hex_digits(s.drop_last())) by {
            assert(forall|i: int|
                0 <= i < s.drop_last().len() ==> s.drop_last()[i] == s[i]);
        }
        lemma_hex_val_bound(s.drop_last());
        assert(is_hex_digit(s.last()));
    }
}

/// A decimal octet as the standard library's IPv4 parser accepts it:
/// one to three digits, no leading zero, value at most 255.
pub open spec fn is_dec_octet(s: Seq<u8>) -> bool {
    1 <= s.len() <= 3 && all_digits(s) && (s.len() > 1 ==> s[0] != '0' as u8) && dec_val(s) <= 255
}

/// An IPv6 group: one to four hexadecimal digits.
pub open spec fn is_h16(s: Seq<u8>) -> bool {
    1 <= s.len() <= 4 && all_hex_digits(s)
}

/// The parse of an IPv4 address: four `.`-separated decimal octets.
pub open spec fn spec_parse_ipv4(s: Seq<u8>) -> Option<(u8, u8, u8, u8)> {
    let ps = split_on(s, '.' as u8);
    if ps.len() == 4 && is_dec_octet(ps[0]) && is_dec_octet(ps[1]) && is_dec_octet(ps[2])
        && is_dec_octet(ps[3]) {
        Some(
            (
                dec_val(ps[0]) as u8,
                dec_val(ps[1]) as u8,
                dec_val(ps[2]) as u8,
                dec_val(ps[3]) as u8,
            ),
        )
    } else {
        None
    }
}

/// Parse a decimal octet token.
fn parse_octet(p: &[u8]) -> (r: Option<u8>)
    ensures
        r == (if is_dec_octet(p@) {
            Some(dec_val(p@) as u8)
        } else {
            None::<u8>
        }),
{
    let n: usize = p.len();
    if n < 1 || n > 3 {
        return None;
    }
    if n > 1 && p[0] == '0' as u8 {
        return None;
    }
    let mut val: u16 = 0;
    let mut i: usize = 0;
    proof {
        assert(p@.take(0) =~= Seq::<u8>::empty());
    }
    while i < n
        invariant
            n == p@.len() <= 3,
            0 <= i <= n,
            forall|k: int| 0 <= k < i ==> is_digit(p@[k]),
            val == dec_val(p@.take(i as int)),
            0 <= val < 1000,
        decreases n - i,
    {
        let b = p[i];
        if b < '0' as u8 || b > '9' as u8 {
            return None;
        }
        proof {
            assert(all_digits(p@.take(i as int))) by {
                assert(forall|k: int| 0 <= k < i ==> p@.take(i as int)[k] == p@[k]);
            }
            lemma_dec_val_bound(p@.take(i as int));
            assert(pow10(0) == 1);
            assert(pow10(1) == 10);
            assert(pow10(2) == 100);
            assert(dec_val(p@.take(i as int)) < 100);
            assert(p@.take(i + 1).drop_last() =~= p@.take(i as int));
            assert(p@.take(i + 1).last() == p@[i as int]);
        }
        val = val * 10 + (b - '0' as u8) as u16;
        i += 1;
    }
    proof {
        assert(p@.take(n as int) =~= p@);
    }
    if val > 255 {
        None
    } else {
        Some(val as u8)
    }
}

/// Parse an IPv4 address token.
pub fn parse_ipv4(s: &[u8]) -> (r: Option<(u8, u8, u8, u8)>)
    ensures
        r == spec_parse_ipv4(s@),
{
    let ps = split_on_exec(s, '.' as u8);
    let ghost psv = split_on(s@, '.' as u8);
    proof {
        assert(psv == views_of(ps@));
    }
    if ps.len() != 4 {
        return None;
    }
    let a = parse_octet(ps[0].as_slice());
    let b = parse_octet(ps[1].as_slice());
    let c = parse_octet(ps[2].as_slice());
    let d = parse_octet(ps[3].as_slice());
    proof {
        assert(ps@[0]@ == psv[0]);
        assert(ps@[1]@ == psv[1]);
        assert(ps@[2]@ == psv[2]);
        assert(ps@[3]@ == psv[3]);
    }
    match (a, b, c, d) {
        (Some(a), Some(b), Some(c), Some(d)) => Some((a, b, c, d)),
        _ => None,
    }
}

/// Index of the first `::` in `s`; `s.len()` if there is none.
pub open spec fn find_dc(s: Seq<u8>) -> nat
    decreases s.len(),
{
    if s.len() < 2 {
        s.len()
    } else if s[0] == ':' as u8 && s[1] == ':' as u8 {
        0
    } else {
        (1 + find_dc(s.drop_first())) as nat
    }
}

pub proof fn lemma_find_dc(s: Seq<u8>)
    ensures
        find_dc(s) <= s.len(),
        find_dc(s) < s.len() ==> find_dc(s) + 1 < s.len() && s[find_dc(s) as int] == ':' as u8
            && s[find_dc(s) as int + 1] == ':' as u8,
        forall|j: int|
            0 <= j < find_dc(s) && j + 1 < s.len() ==> !(#[trigger] s[j] == ':' as u8 && s[j + 1] == ':' as u8),
    decreases s.len(),
{
    if s.len() >= 2 && !(s[0] == ':' as u8 && s[1] == ':' as u8) {
        lemma_find_dc(s.drop_first());
        assert forall|j: int|
            0 <= j < find_dc(s) && j + 1 < s.len() implies !(#[trigger] s[j] == ':' as u8 && s[j + 1]
            == ':' as u8) by {
            if j > 0 {
                assert(s.drop_first()[j - 1] == s[j]);
                assert(s.drop_first()[j] == s[j + 1]);
            }
        }
    }
}

pub proof fn lemma_find_dc_is(s: Seq<u8>, i: int)
    requires
        0 <= i <= s.len(),
        i < s.len() ==> i + 1 < s.len() && s[i] == ':' as u8 && s[i + 1] == ':' as u8,
        forall|j: int| 0 <= j < i && j + 1 < s.len() ==> !(#[trigger] s[j] == ':' as u8 && s[j + 1] == ':' as u8),
    ensures
        find_dc(s) == i,
{
    lemma_find_dc(s);
    let f = find_dc(s) as int;
    if f < i {
        assert(s[f] == ':' as u8 && s[f + 1] == ':' as u8);
    }
    if i < f {
        assert(!(s[i] == ':' as u8 && s[i + 1] == ':' as u8));
    }
}

/// Whether every part is a valid IPv6 group.
pub open spec fn all_h16(ps: Seq<Seq<u8>>) -> bool {
    forall|i: int| 0 <= i < ps.len() ==> is_h16(ps[i])
}

/// The group values of a sequence of IPv6 group tokens.
pub open spec fn group_vals(ps: Seq<Seq<u8>>) -> Seq<u16> {
    Seq::new(ps.len(), |i: int| hex_val(ps[i]) as u16)
}

/// The two groups contributed by an embedded IPv4 address.
pub open spec fn v4_groups(q: (u8, u8, u8, u8)) -> Seq<u16> {
    seq![(q.0 * 256 + q.1) as u16, (q.2 * 256 + q.3) as u16]
}

pub open spec fn zero_groups(n: int) -> Seq<u16> {
    Seq::new(n as nat, |i: int| 0u16)
}

/// The parse of an IPv6 address, as the standard library accepts it:
/// without `::`, exactly eight groups, or six groups and a trailing
/// embedded IPv4 address; with one `::`, the groups on both sides plus
/// the embedded address count at most seven, and `::` supplies the
/// missing zero groups. The result always has exactly eight groups.
pub open spec fn spec_parse_ipv6(s: Seq<u8>) -> Option<Seq<u16>> {
    let dc = find_dc(s) as int;
    if dc >= s.len() {
        let ps = split_on(s, ':' as u8);
        if ps.len() == 8 && all_h16(ps) {
            Some(group_vals(ps))
        } else if ps.len() == 7 && all_h16(ps.take(6)) {
            match spec_parse_ipv4(ps[6]) {
                Some(q) => Some(group_vals(ps.take(6)) + v4_groups(q)),
                None => None,
            }
        } else {
            None
        }
    } else {
        let left = s.take(dc);
        let right = s.skip(dc + 2);
        let lp = if left.len() == 0 {
            Seq::<Seq<u8>>::empty()
        } else {
            split_on(left, ':' as u8)
        };
        let rp = if right.len() == 0 {
            Seq::<Seq<u8>>::empty()
        } else {
            split_on(right, ':' as u8)
        };
        if !all_h16(lp) {
            None
        } else if rp.len() == 0 {
            if lp.len() <= 7 {
                Some(group_vals(lp) + zero_groups(8 - lp.len()))
            } else {
                None
            }
        } else if all_h16(rp) {
            if lp.len() + rp.len() <= 7 {
                Some(
                    group_vals(lp) + zero_groups(8 - lp.len() - rp.len()) + group_vals(rp),
                )
            } else {
                None
            }
        } else if all_h16(rp.drop_last()) {
            match spec_parse_ipv4(rp.last()) {
                Some(q) => if lp.len() + rp.len() + 1 <= 7 {
                    Some(
                        group_vals(lp) + zero_groups(8 - lp.len() - rp.len() - 1) + group_vals(
                            rp.drop_last(),
                        ) + v4_groups(q),
                    )
                } else {
                    None
                },
                None => None,
            }
        } else {
            None
        }
    }
}

/// Parse an IPv6 group token.
fn parse_h16(p: &[u8]) -> (r: Option<u16>)
    ensures
        r == (if is_h16(p@) {
            Some(hex_val(p@) as u16)
        } else {
            None::<u16>
        }),
{
    let n: usize = p.len();
    if n < 1 || n > 4 {
        return None;
    }
    let mut val: u32 = 0;
    let mut i: usize = 0;
    proof {
        assert(p@.take(0) =~= Seq::<u8>::empty());
    }
    while i < n
        invariant
            n == p@.len() <= 4,
            0 <= i <= n,
            forall|k: int| 0 <= k < i ==> is_hex_digit(p@[k]),
            val == hex_val(p@.take(i as int)),
            0 <= val < 65536,
        decreases n - i,
    {
        let b = p[i];
        let d: u32 = if '0' as u8 <= b && b <= '9' as u8 {
            (b - '0' as u8) as u32
        } else if 'a' as u8 <= b && b <= 'f' as u8 {
            (b - 'a' as u8) as u32 + 10
        } else if 'A' as u8 <= b && b <= 'F' as u8 {
            (b - 'A' as u8) as u32 + 10
        } else {
            return None;
        };
        proof {
            assert(all_hex_digits(p@.take(i as int))) by {
                assert(forall|k: int| 0 <= k < i ==> p@.take(i as int)[k] == p@[k]);
            }
            lemma_hex_val_bound(p@.take(i as int));
            assert(pow16(0) == 1);
            assert(pow16(1) == 16);
            assert(pow16(2) == 256);
            assert(pow16(3) == 4096);
            assert(hex_val(p@.take(i as int)) < 4096);
            assert(p@.take(i + 1).drop_last() =~= p@.take(i as int));
            assert(p@.take(i + 1).last() == p@[i as int]);
            assert(d == hex_digit_val(p@[i as int]));
        }
        val = val * 16 + d;
        i += 1;
    }
    proof {
        assert(p@.take(n as int) =~= p@);
    }
    Some(val as u16)
}

/// Append the contents of `src` to `dst`.
fn push_all(dst: &mut Vec<u16>, src: &Vec<u16>)
    ensures
        final(dst)@ == old(dst)@ + src@,
{
    let mut i: usize = 0;
    let n: usize = src.len();
    proof {
        assert(dst@ + src@.take(0) =~= dst@);
    }
    while i < n
        invariant
            n == src@.len(),
            0 <= i <= n,
            dst@ == old(dst)@ + src@.take(i as int),
        decreases n - i,
    {
        proof {
            assert((old(dst)@ + src@.take(i as int)).push(src@[i as int]) =~= old(dst)@
                + src@.take(i + 1));
        }
        let v = src[i];
        dst.push(v);
        i += 1;
    }
    proof {
        assert(src@.take(n as int) =~= src@);
    }
}

/// Append `count` zero groups to `dst`.
fn push_zeros(dst: &mut Vec<u16>, count: usize)
    ensures
        final(dst)@ == old(dst)@ + zero_groups(count as int),
{
    let mut i: usize = 0;
    proof {
        assert(dst@ + zero_groups(0) =~= dst@);
    }
    while i < count
        invariant
            0 <= i <= count,
            dst@ == old(dst)@ + zero_groups(i as int),
        decreases count - i,
    {
        proof {
            assert((old(dst)@ + zero_groups(i as int)).push(0u16) =~= old(dst)@ + zero_groups(
                i + 1,
            ));
        }
        dst.push(0u16);
        i += 1;
    }
}

/// Parse the tokens in `ps[from..to]` as IPv6 groups, appending their
/// values to `dst`; reports whether all of them were valid groups.
fn parse_groups(dst: &mut Vec<u16>, ps: &Vec<Vec<u8>>, from: usize, to: usize) -> (ok: bool)
    requires
        0 <= from <= to <= ps@.len(),
    ensures
        ok == all_h16(views_of(ps@).subrange(from as int, to as int)),
        ok ==> final(dst)@ == old(dst)@ + group_vals(
            views_of(ps@).subrange(from as int, to as int),
        ),
        !ok ==> final(dst)@ == old(dst)@,
{
    let ghost whole = views_of(ps@).subrange(from as int, to as int);
    let mut vals: Vec<u16> = Vec::new();
    let mut i: usize = from;
    while i < to
        invariant
            0 <= from <= i <= to <= ps@.len(),
            whole == views_of(ps@).subrange(from as int, to as int),
            forall|k: int| 0 <= k < i - from ==> is_h16(whole[k]),
            vals@ == group_vals(whole.take(i - from)),
        decreases to - i,
    {
        proof {
            assert(whole[i - from] == ps@[i as int]@);
        }
        match parse_h16(ps[i].as_slice()) {
            Some(v) => {
                proof {
                    assert(group_vals(whole.take(i - from)).push(v) =~= group_vals(
                        whole.take(i - from + 1),
                    ));
                }
                vals.push(v);
            },
            None => {
                proof {
                    assert(!is_h16(whole[i - from]));
                }
                return false;
            },
        }
        i += 1;
    }
    proof {
        assert(whole.take(to - from) =~= whole);
        assert(vals@ == group_vals(whole));
    }
    push_all(dst, &vals);
    true
}

/// Parse an IPv6 address token into its eight groups.
pub fn parse_ipv6(s: &[u8]) -> (r: Option<Vec<u16>>)
    ensures
        match r {
            Some(g) => spec_parse_ipv6(s@) == Some(g@) && g@.len() == 8,
            None => spec_parse_ipv6(s@) is None,
        },
{
    let n: usize = s.len();
    // locate the first "::", if any
    let mut j: usize = 0;
    let mut found: bool = false;
    while !found && n > 0 && j < n - 1
        invariant
            n == s@.len(),
            0 <= j <= n,
            !found ==> forall|k: int|
                0 <= k < j ==> !(#[trigger] s@[k] == ':' as u8 && s@[k + 1] == ':' as u8),
            found ==> j + 1 < n && s@[j as int] == ':' as u8 && s@[j + 1] == ':' as u8
                && (forall|k: int|
                0 <= k < j ==> !(#[trigger] s@[k] == ':' as u8 && s@[k + 1] == ':' as u8)),
        decreases n - j, (if found { 0int } else { 1int }),
    {
        if s[j] == ':' as u8 && s[j + 1] == ':' as u8 {
            found = true;
        } else {
            j += 1;
        }
    }
    let ghost dc = find_dc(s@) as int;
    proof {
        if found {
            lemma_find_dc_is(s@, j as int);
        } else {
            lemma_find_dc_is(s@, n as int);
        }
    }
    if !found {
        // no "::": eight plain groups, or six and an embedded IPv4 address
        let ps = split_on_exec(s, ':' as u8);
        let ghost psv = split_on(s@, ':' as u8);
        if ps.len() == 8 {
            let mut groups: Vec<u16> = Vec::new();
            let ok = parse_groups(&mut groups, &ps, 0, 8);
            proof {
                assert(views_of(ps@).subrange(0, 8) =~= psv);
            }
            if ok {
                proof {
                    assert(Seq::<u16>::empty() + group_vals(psv) =~= group_vals(psv));
                }
                Some(groups)
            } else {
                None
            }
        } else if ps.len() == 7 {
            let mut groups: Vec<u16> = Vec::new();
            let ok = parse_groups(&mut groups, &ps, 0, 6);
            proof {
                assert(views_of(ps@).subrange(0, 6) =~= psv.take(6));
            }
            if !ok {
                return None;
            }
            proof {
                assert(ps@[6]@ == psv[6]);
            }
            match parse_ipv4(ps[6].as_slice()) {
                Some((a, b, c, d)) => {
                    let hi: u16 = (a as u16) * 256 + (b as u16);
                    let lo: u16 = (c as u16) * 256 + (d as u16);
                    groups.push(hi);
                    groups.push(lo);
                    proof {
                        assert(groups@ =~= group_vals(psv.take(6)) + v4_groups(
                            (a, b, c, d),
                        ));
                    }
                    Some(groups)
                },
                None => None,
            }
        } else {
            None
        }
    } else {
        // one "::": groups on the left, groups (and possibly an embedded
        // IPv4 address) on the right, zero groups in between
        let left = vstd::slice::slice_subrange(s, 0, j);
        let right = vstd::slice::slice_subrange(s, j + 2, n);
        let lp: Vec<Vec<u8>> = if left.len() == 0 {
            Vec::new()
        } else {
            split_on_exec(left, ':' as u8)
        };
        let ghost lpv = if s@.take(dc).len() == 0 {
            Seq::<Seq<u8>>::empty()
        } else {
            split_on(s@.take(dc), ':' as u8)
        };
        proof {
            assert(left@ =~= s@.take(dc));
            if left@.len() == 0 {
                assert(views_of(lp@) =~= lpv);
            } else {
                assert(views_of(lp@) == lpv);
            }
        }
        let rp: Vec<Vec<u8>> = if right.len() == 0 {
            Vec::new()
        } else {
            split_on_exec(right, ':' as u8)
        };
        let ghost rpv = if s@.skip(dc + 2).len() == 0 {
            Seq::<Seq<u8>>::empty()
        } else {
            split_on(s@.skip(dc + 2), ':' as u8)
        };
        proof {
            assert(right@ =~= s@.skip(dc + 2));
            if right@.len() == 0 {
                assert(views_of(rp@) =~= rpv);
            } else {
                assert(views_of(rp@) == rpv);
            }
        }
        let l: usize = lp.len();
        let mut groups: Vec<u16> = Vec::new();
        let lok = parse_groups(&mut groups, &lp, 0, l);
        proof {
            assert(views_of(lp@).subrange(0, l as int) =~= lpv);
        }
        if !lok {
            return None;
        }
        let m: usize = rp.len();
        if m == 0 {
            if l <= 7 {
                push_zeros(&mut groups, 8 - l);
                proof {
                    assert(Seq::<u16>::empty() + group_vals(lpv) =~= group_vals(lpv));
                }
                Some(groups)
            } else {
                None
            }
        } else {
            let mut rvals: Vec<u16> = Vec::new();
            let rok = parse_groups(&mut rvals, &rp, 0, m - 1);
            proof {
                assert(views_of(rp@).subrange(0, m - 1) =~= rpv.drop_last());
            }
            if !rok {
                proof {
                    let bad = choose|k: int|
                        0 <= k < rpv.drop_last().len() && !is_h16(rpv.drop_last()[k]);
                    assert(rpv.drop_last()[bad] == rpv[bad]);
                    assert(!all_h16(rpv));
                }
                return None;
            }
            proof {
                assert(rp@[m - 1]@ == rpv.last());
            }
            match parse_h16(rp[m - 1].as_slice()) {
                Some(v) => {
                    proof {
                        assert forall|k: int| 0 <= k < rpv.len() implies is_h16(rpv[k]) by {
                            if k < m - 1 {
                                assert(rpv.drop_last()[k] == rpv[k]);
                            }
                        }
                    }
                    if l <= 7 && m <= 7 && l + m <= 7 {
                        push_zeros(&mut groups, 8 - l - m);
                        push_all(&mut groups, &rvals);
                        groups.push(v);
                        proof {
                            assert(group_vals(rpv.drop_last()).push(v) =~= group_vals(rpv));
                            assert(groups@ =~= group_vals(lpv) + zero_groups(
                                8 - lpv.len() - rpv.len(),
                            ) + group_vals(rpv));
                        }
                        Some(groups)
                    } else {
                        None
                    }
                },
                None => {
                    proof {
                        assert(!is_h16(rpv.last()));
                        assert(!all_h16(rpv));
                    }
                    match parse_ipv4(rp[m - 1].as_slice()) {
                        Some((a, b, c, d)) => {
                            if l <= 7 && m <= 7 && l + m + 1 <= 7 {
                                let hi: u16 = (a as u16) * 256 + (b as u16);
                                let lo: u16 = (c as u16) * 256 + (d as u16);
                                push_zeros(&mut groups, 8 - l - m - 1);
                                push_all(&mut groups, &rvals);
                                groups.push(hi);
                                groups.push(lo);
                                proof {
                                    assert(groups@ =~= group_vals(lpv) + zero_groups(
                                        8 - lpv.len() - rpv.len() - 1,
                                    ) + group_vals(rpv.drop_last()) + v4_groups((a, b, c, d)));
                                }
                                Some(groups)
                            } else {
                                None
                            }
                        },
                        None => None,
                    }
                },
            }
        }
    }
}

/// The parse of an IP address token: an IPv4 address if the token is
/// one, otherwise an IPv6 address if the token is one, as the standard
/// library's address parser accepts them.
pub open spec fn spec_parse_ip(s: Seq<u8>) -> Option<IpAddr> {
    match spec_parse_ipv4(s) {
        Some(q) => Some(IpAddr::V4(q.0, q.1, q.2, q.3)),
        None => match spec_parse_ipv6(s) {
            Some(g) => Some(IpAddr::V6(g[0], g[1], g[2], g[3], g[4], g[5], g[6], g[7])),
            None => None,
        },
    }
}

/// Parse an IP address token.
pub fn parse_ip(s: &[u8]) -> (r: Option<IpAddr>)
    ensures
        r == spec_parse_ip(s@),
{
    match parse_ipv4(s) {
        Some((a, b, c, d)) => Some(IpAddr::V4(a, b, c, d)),
        None => match parse_ipv6(s) {
            Some(g) => Some(IpAddr::V6(g[0], g[1], g[2], g[3], g[4], g[5], g[6], g[7])),
            None => None,
        },
    }
}

} // verus!
