//! Byte-level text utilities shared by the two configuration parsers:
//! splitting a byte stream into logical lines, discarding comment and
//! indented lines, splitting on separators and whitespace, and trimming.
use vstd::prelude::*;

verus! {

/// The bytes that `char::is_whitespace` accepts among ASCII: space and
/// the five control characters tab, line feed, vertical tab, form feed
/// and carriage return.
pub open spec fn is_ws(b: u8) -> bool {
    b == ' ' as u8 || 0x09 <= b <= 0x0d
}

/// The mathematical contents of a sequence of byte vectors.
pub open spec fn views_of(ps: Seq<Vec<u8>>) -> Seq<Seq<u8>> {
    Seq::new(ps.len(), |i: int| ps[i]@)
}

/// Index of the first occurrence of `b` in `s`; `s.len()` if absent.
pub open spec fn find_byte(s: Seq<u8>, b: u8) -> nat
    decreases s.len(),
{
    if s.len() == 0 {
        0
    } else if s[0] == b {
        0
    } else {
        (1 + find_byte(s.drop_first(), b)) as nat
    }
}

pub proof fn lemma_find_byte(s: Seq<u8>, b: u8)
    ensures
        find_byte(s, b) <= s.len(),
        find_byte(s, b) < s.len() ==> s[find_byte(s, b) as int] == b,
        forall|j: int| 0 <= j < find_byte(s, b) ==> s[j] != b,
    decreases s.len(),
{
    if s.len() > 0 && s[0] != b {
        lemma_find_byte(s.drop_first(), b);
        assert forall|j: int| 0 <= j < find_byte(s, b) implies s[j] != b by {
            if j > 0 {
                assert(s.drop_first()[j - 1] == s[j]);
            }
        }
    }
}

/// `find_byte` is pinned down by its characterization: if `b` first occurs
/// at `i` (or does not occur and `i` is the length), then `find_byte` is `i`.
pub proof fn lemma_find_byte_is(s: Seq<u8>, b: u8, i: int)
    requires
        0 <= i <= s.len(),
        i < s.len() ==> s[i] == b,
        forall|j: int| 0 <= j < i ==> s[j] != b,
    ensures
        find_byte(s, b) == i,
{
    lemma_find_byte(s, b);
    let f = find_byte(s, b) as int;
    if f < i {
        assert(s[f] == b);
    }
    if i < f {
        assert(s[i] != b);
    }
}

/// The parts of `s` between occurrences of the separator `sep`, in order.
/// There is always at least one part; empty parts are kept, as with
/// `str::split`.
pub open spec fn split_on(s: Seq<u8>, sep: u8) -> Seq<Seq<u8>>
    decreases s.len(),
{
    let i = find_byte(s, sep) as int;
    if i >= s.len() {
        seq![s]
    } else {
        seq![s.take(i)] + split_on(s.skip(i + 1), sep)
    }
}

pub proof fn lemma_split_on_len(s: Seq<u8>, sep: u8)
    ensures
        split_on(s, sep).len() >= 1,
    decreases s.len(),
{
    let i = find_byte(s, sep) as int;
    if i < s.len() {
        lemma_find_byte(s, sep);
        lemma_split_on_len(s.skip(i + 1), sep);
    }
}

pub proof fn lemma_split_on_none(s: Seq<u8>, sep: u8)
    requires
        forall|j: int| 0 <= j < s.len() ==> s[j] != sep,
    ensures
        split_on(s, sep) == seq![s],
{
    lemma_find_byte_is(s, sep, s.len() as int);
}

pub proof fn lemma_split_on_found(s: Seq<u8>, sep: u8, i: int)
    requires
        0 <= i < s.len(),
        s[i] == sep,
        forall|j: int| 0 <= j < i ==> s[j] != sep,
    ensures
        split_on(s, sep) == seq![s.take(i)] + split_on(s.skip(i + 1), sep),
{
    lemma_find_byte_is(s, sep, i);
}

/// Index of the first whitespace byte in `s`; `s.len()` if there is none.
pub open spec fn find_ws(s: Seq<u8>) -> nat
    decreases s.len(),
{
    if s.len() == 0 {
        0
    } else if is_ws(s[0]) {
        0
    } else {
        (1 + find_ws(s.drop_first())) as nat
    }
}

pub proof fn lemma_find_ws(s: Seq<u8>)
    ensures
        find_ws(s) <= s.len(),
        find_ws(s) < s.len() ==> is_ws(s[find_ws(s) as int]),
        forall|j: int| 0 <= j < find_ws(s) ==> !is_ws(s[j]),
    decreases s.len(),
{
    if s.len() > 0 && !is_ws(s[0]) {
        lemma_find_ws(s.drop_first());
        assert forall|j: int| 0 <= j < find_ws(s) implies !is_ws(s[j]) by {
            if j > 0 {
                assert(s.drop_first()[j - 1] == s[j]);
            }
        }
    }
}

pub proof fn lemma_find_ws_is(s: Seq<u8>, i: int)
    requires
        0 <= i <= s.len(),
        i < s.len() ==> is_ws(s[i]),
        forall|j: int| 0 <= j < i ==> !is_ws(s[j]),
    ensures
        find_ws(s) == i,
{
    lemma_find_ws(s);
    let f = find_ws(s) as int;
    if f < i {
        assert(is_ws(s[f]));
    }
    if i < f {
        assert(!is_ws(s[i]));
    }
}

/// The maximal whitespace-free tokens of `s`, in order, as with
/// `str::split_whitespace`: runs of whitespace separate tokens and
/// produce no empty tokens.
pub open spec fn split_ws(s: Seq<u8>) -> Seq<Seq<u8>>
    decreases s.len(),
{
    if s.len() == 0 {
        seq![]
    } else if is_ws(s[0]) {
        split_ws(s.drop_first())
    } else {
        let i = find_ws(s) as int;
        if i >= s.len() {
            seq![s]
        } else {
            seq![s.take(i)] + split_ws(s.skip(i))
        }
    }
}

pub proof fn lemma_split_ws_none(s: Seq<u8>)
    requires
        s.len() > 0,
        forall|j: int| 0 <= j < s.len() ==> !is_ws(s[j]),
    ensures
        split_ws(s) == seq![s],
{
    lemma_find_ws_is(s, s.len() as int);
}

pub proof fn lemma_split_ws_token(s: Seq<u8>, i: int)
    requires
        0 < i < s.len(),
        is_ws(s[i]),
        forall|j: int| 0 <= j < i ==> !is_ws(s[j]),
    ensures
        split_ws(s) == seq![s.take(i)] + split_ws(s.skip(i)),
{
    lemma_find_ws_is(s, i);
}

/// Strip leading whitespace.
pub open spec fn trim_start(s: Seq<u8>) -> Seq<u8>
    decreases s.len(),
{
    if s.len() > 0 && is_ws(s[0]) {
        trim_start(s.drop_first())
    } else {
        s
    }
}

/// Strip trailing whitespace.
pub open spec fn trim_end(s: Seq<u8>) -> Seq<u8>
    decreases s.len(),
{
    if s.len() > 0 && is_ws(s.last()) {
        trim_end(s.drop_last())
    } else {
        s
    }
}

/// Strip whitespace from both ends, as `str::trim` does.
pub open spec fn trim(s: Seq<u8>) -> Seq<u8> {
    trim_end(trim_start(s))
}

pub proof fn lemma_trim_start_is(s: Seq<u8>, k: int)
    requires
        0 <= k <= s.len(),
        forall|j: int| 0 <= j < k ==> is_ws(s[j]),
        k < s.len() ==> !is_ws(s[k]),
    ensures
        trim_start(s) == s.skip(k),
    decreases k,
{
    if k > 0 {
        assert(s.drop_first() =~= s.skip(1));
        assert forall|j: int| 0 <= j < k - 1 implies is_ws(s.skip(1)[j]) by {
            assert(s.skip(1)[j] == s[j + 1]);
        }
        lemma_trim_start_is(s.skip(1), k - 1);
        assert(s.skip(1).skip(k - 1) =~= s.skip(k));
    } else {
        assert(s.skip(0) =~= s);
    }
}

pub proof fn lemma_trim_end_is(s: Seq<u8>, k: int)
    requires
        0 <= k <= s.len(),
        forall|j: int| k <= j < s.len() ==> is_ws(s[j]),
        k > 0 ==> !is_ws(s[k - 1]),
    ensures
        trim_end(s) == s.take(k),
    decreases s.len(),
{
    if k < s.len() {
        assert(is_ws(s.last()));
        assert forall|j: int| k <= j < s.drop_last().len() implies is_ws(s.drop_last()[j]) by {
            assert(s.drop_last()[j] == s[j]);
        }
        lemma_trim_end_is(s.drop_last(), k);
        assert(s.drop_last().take(k) =~= s.take(k));
    } else {
        assert(s.take(k) =~= s);
    }
}

/// Drop one trailing carriage return, as `BufRead::lines` does on a line
/// that ended in a line feed.
pub open spec fn chomp_cr(l: Seq<u8>) -> Seq<u8> {
    if l.len() > 0 && l.last() == '\r' as u8 {
        l.drop_last()
    } else {
        l
    }
}

/// The logical lines of a byte stream: split on line feeds, one trailing
/// carriage return removed from each line-feed-terminated line, and no
/// final empty line when the stream ends in a line feed — exactly the
/// lines that `BufRead::lines` yields.
pub open spec fn lines_of(s: Seq<u8>) -> Seq<Seq<u8>>
    decreases s.len(),
{
    if s.len() == 0 {
        seq![]
    } else {
        let i = find_byte(s, '\n' as u8) as int;
        if i >= s.len() {
            seq![s]
        } else {
            seq![chomp_cr(s.take(i))] + lines_of(s.skip(i + 1))
        }
    }
}

pub proof fn lemma_lines_of_none(s: Seq<u8>)
    requires
        s.len() > 0,
        forall|j: int| 0 <= j < s.len() ==> s[j] != '\n' as u8,
    ensures
        lines_of(s) == seq![s],
{
    lemma_find_byte_is(s, '\n' as u8, s.len() as int);
}

pub proof fn lemma_lines_of_found(s: Seq<u8>, i: int)
    requires
        0 <= i < s.len(),
        s[i] == '\n' as u8,
        forall|j: int| 0 <= j < i ==> s[j] != '\n' as u8,
    ensures
        lines_of(s) == seq![chomp_cr(s.take(i))] + lines_of(s.skip(i + 1)),
{
    lemma_find_byte_is(s, '\n' as u8, i);
}

/// A line both parsers discard without looking at it further: empty,
/// a `#` comment, or an indented (space-led) line.
pub open spec fn is_noise_line(l: Seq<u8>) -> bool {
    l.len() == 0 || l[0] == '#' as u8 || l[0] == ' ' as u8
}

/// The lines that survive the noise filter, in order.
pub open spec fn keep_lines(ls: Seq<Seq<u8>>) -> Seq<Seq<u8>>
    decreases ls.len(),
{
    if ls.len() == 0 {
        seq![]
    } else if is_noise_line(ls[0]) {
        keep_lines(ls.drop_first())
    } else {
        seq![ls[0]] + keep_lines(ls.drop_first())
    }
}

/// The lines of a stream that either parser actually interprets.
pub open spec fn content_lines(s: Seq<u8>) -> Seq<Seq<u8>> {
    keep_lines(lines_of(s))
}

pub proof fn lemma_keep_lines_add(a: Seq<Seq<u8>>, b: Seq<Seq<u8>>)
    ensures
        keep_lines(a + b) == keep_lines(a) + keep_lines(b),
    decreases a.len(),
{
    if a.len() == 0 {
        assert(a + b =~= b);
        assert(keep_lines(a) + keep_lines(b) =~= keep_lines(b));
    } else {
        assert((a + b).drop_first() =~= a.drop_first() + b);
        lemma_keep_lines_add(a.drop_first(), b);
        if !is_noise_line(a[0]) {
            assert(seq![a[0]] + (keep_lines(a.drop_first()) + keep_lines(b)) =~= (seq![a[0]]
                + keep_lines(a.drop_first())) + keep_lines(b));
        }
    }
}

/// Extract the bytes of `s` from `from` (inclusive) to `to` (exclusive)
/// as a fresh vector.
pub fn subrange_vec(s: &[u8], from: usize, to: usize) -> (r: Vec<u8>)
    requires
        0 <= from <= to <= s@.len(),
    ensures
        r@ == s@.subrange(from as int, to as int),
{
    vstd::slice::slice_to_vec(vstd::slice::slice_subrange(s, from, to))
}

/// Split `s` on every occurrence of `sep`, as `str::split` does.
pub fn split_on_exec(s: &[u8], sep: u8) -> (r: Vec<Vec<u8>>)
    ensures
        views_of(r@) == split_on(s@, sep),
{
    let mut parts: Vec<Vec<u8>> = Vec::new();
    let mut start: usize = 0;
    let mut i: usize = 0;
    let n: usize = s.len();
    proof {
        assert(s@.skip(0) =~= s@);
    }
    while i < n
        invariant
            n == s@.len(),
            0 <= start <= i <= n,
            forall|j: int| start <= j < i ==> s@[j] != sep,
            split_on(s@, sep) == views_of(parts@) + split_on(s@.skip(start as int), sep),
        decreases n - i,
    {
        if s[i] == sep {
            let part = subrange_vec(s, start, i);
            proof {
                let suf = s@.skip(start as int);
                assert forall|j: int| 0 <= j < i - start implies suf[j] != sep by {
                    assert(suf[j] == s@[start + j]);
                }
                assert(suf[i - start] == s@[i as int]);
                lemma_split_on_found(suf, sep, i - start);
                assert(suf.take(i - start) =~= part@);
                assert(suf.skip(i - start + 1) =~= s@.skip(i + 1));
                assert(views_of(parts@.push(part)) =~= views_of(parts@).push(
                    part@,
                ));
                assert(views_of(parts@) + (seq![part@] + split_on(s@.skip(i + 1), sep))
                    =~= views_of(parts@).push(part@) + split_on(s@.skip(i + 1), sep));
            }
            parts.push(part);
            start = i + 1;
        }
        i += 1;
    }
    let last = subrange_vec(s, start, n);
    proof {
        let suf = s@.skip(start as int);
        assert forall|j: int| 0 <= j < suf.len() implies suf[j] != sep by {
            assert(suf[j] == s@[start + j]);
        }
        lemma_split_on_none(suf, sep);
        assert(suf =~= last@);
        assert(views_of(parts@.push(last)) =~= views_of(parts@).push(last@));
        assert(views_of(parts@) + seq![last@] =~= views_of(parts@).push(last@));
    }
    parts.push(last);
    parts
}

/// Split `s` into whitespace-separated tokens, as `str::split_whitespace`
/// does.
pub fn split_ws_exec(s: &[u8]) -> (r: Vec<Vec<u8>>)
    ensures
        views_of(r@) == split_ws(s@),
{
    let mut parts: Vec<Vec<u8>> = Vec::new();
    let mut i: usize = 0;
    let n: usize = s.len();
    proof {
        assert(s@.skip(0) =~= s@);
    }
    while i < n
        invariant
            n == s@.len(),
            0 <= i <= n,
            split_ws(s@) == views_of(parts@) + split_ws(s@.skip(i as int)),
        decreases n - i,
    {
        if is_ws_exec(s[i]) {
            proof {
                let suf = s@.skip(i as int);
                assert(suf[0] == s@[i as int]);
                assert(suf.drop_first() =~= s@.skip(i + 1));
            }
            i += 1;
        } else {
            // scan to the end of the token
            let tok_start: usize = i;
            let mut j: usize = i + 1;
            while j < n && !is_ws_exec(s[j])
                invariant
                    n == s@.len(),
                    tok_start < j <= n,
                    forall|k: int| tok_start <= k < j ==> !is_ws(s@[k]),
                    !is_ws(s@[tok_start as int]),
                decreases n - j,
            {
                j += 1;
            }
            let part = subrange_vec(s, tok_start, j);
            proof {
                let suf = s@.skip(tok_start as int);
                assert forall|k: int| 0 <= k < j - tok_start implies !is_ws(suf[k]) by {
                    assert(suf[k] == s@[tok_start + k]);
                }
                if j < n {
                    assert(suf[j - tok_start] == s@[j as int]);
                    lemma_split_ws_token(suf, j - tok_start);
                    assert(suf.take(j - tok_start) =~= part@);
                    assert(suf.skip(j - tok_start) =~= s@.skip(j as int));
                } else {
                    assert(suf.len() > 0);
                    lemma_split_ws_none(suf);
                    assert(suf =~= part@);
                    assert(s@.skip(n as int) =~= Seq::<u8>::empty());
                    assert(split_ws(s@.skip(n as int)) =~= Seq::<Seq<u8>>::empty());
                    assert(seq![suf] + split_ws(s@.skip(n as int)) =~= seq![suf]);
                }
                assert(views_of(parts@.push(part)) =~= views_of(parts@).push(
                    part@,
                ));
                assert(views_of(parts@) + (seq![part@] + split_ws(s@.skip(j as int)))
                    =~= views_of(parts@).push(part@) + split_ws(s@.skip(j as int)));
            }
            parts.push(part);
            i = j;
        }
    }
    proof {
        assert(s@.skip(n as int) =~= Seq::<u8>::empty());
        assert(views_of(parts@) + split_ws(Seq::<u8>::empty()) =~= views_of(parts@));
    }
    parts
}

/// Whether `b` is one of the whitespace bytes.
pub fn is_ws_exec(b: u8) -> (r: bool)
    ensures
        r == is_ws(b),
{
    b == ' ' as u8 || (0x09 <= b && b <= 0x0d)
}

/// Strip whitespace from both ends of `s`, as `str::trim` does.
pub fn trim_exec(s: &[u8]) -> (r: Vec<u8>)
    ensures
        r@ == trim(s@),
{
    let n: usize = s.len();
    let mut lo: usize = 0;
    while lo < n && is_ws_exec(s[lo])
        invariant
            n == s@.len(),
            0 <= lo <= n,
            forall|j: int| 0 <= j < lo ==> is_ws(s@[j]),
        decreases n - lo,
    {
        lo += 1;
    }
    let mut hi: usize = n;
    while hi > lo && is_ws_exec(s[hi - 1])
        invariant
            n == s@.len(),
            lo <= hi <= n,
            forall|j: int| hi <= j < n ==> is_ws(s@[j]),
        decreases hi,
    {
        hi -= 1;
    }
    let r = subrange_vec(s, lo, hi);
    proof {
        lemma_trim_start_is(s@, lo as int);
        let mid = s@.skip(lo as int);
        assert forall|j: int| hi - lo <= j < mid.len() implies is_ws(mid[j]) by {
            assert(mid[j] == s@[lo + j]);
        }
        if hi > lo {
            assert(mid[hi - lo - 1] == s@[hi - 1]);
        }
        lemma_trim_end_is(mid, hi - lo);
        assert(mid.take(hi - lo) =~= r@);
    }
    r
}

/// Split a byte stream into its logical lines, as `BufRead::lines` does.
pub fn lines_exec(s: &[u8]) -> (r: Vec<Vec<u8>>)
    ensures
        views_of(r@) == lines_of(s@),
{
    let mut lines: Vec<Vec<u8>> = Vec::new();
    let mut start: usize = 0;
    let mut i: usize = 0;
    let n: usize = s.len();
    proof {
        assert(s@.skip(0) =~= s@);
    }
    while i < n
        invariant
            n == s@.len(),
            0 <= start <= i <= n,
            forall|j: int| start <= j < i ==> s@[j] != '\n' as u8,
            lines_of(s@) == views_of(lines@) + lines_of(s@.skip(start as int)),
        decreases n - i,
    {
        if s[i] == '\n' as u8 {
            let end: usize = if i > start && s[i - 1] == '\r' as u8 {
                i - 1
            } else {
                i
            };
            let line = subrange_vec(s, start, end);
            proof {
                let suf = s@.skip(start as int);
                assert forall|j: int| 0 <= j < i - start implies suf[j] != '\n' as u8 by {
                    assert(suf[j] == s@[start + j]);
                }
                assert(suf[i - start] == s@[i as int]);
                lemma_lines_of_found(suf, i - start);
                let raw = suf.take(i - start);
                assert(raw =~= s@.subrange(start as int, i as int));
                if i > start && s@[i - 1] == '\r' as u8 {
                    assert(raw.len() > 0 && raw.last() == '\r' as u8);
                    assert(raw.drop_last() =~= line@);
                } else {
                    if raw.len() > 0 {
                        assert(raw.last() == s@[i - 1]);
                    }
                    assert(raw =~= line@);
                }
                assert(chomp_cr(raw) == line@);
                assert(suf.skip(i - start + 1) =~= s@.skip(i + 1));
                assert(views_of(lines@.push(line)) =~= views_of(lines@).push(
                    line@,
                ));
                assert(views_of(lines@) + (seq![line@] + lines_of(s@.skip(i + 1)))
                    =~= views_of(lines@).push(line@) + lines_of(s@.skip(i + 1)));
            }
            lines.push(line);
            start = i + 1;
        }
        i += 1;
    }
    if start < n {
        let last = subrange_vec(s, start, n);
        proof {
            let suf = s@.skip(start as int);
            assert forall|j: int| 0 <= j < suf.len() implies suf[j] != '\n' as u8 by {
                assert(suf[j] == s@[start + j]);
            }
            assert(suf.len() > 0);
            lemma_lines_of_none(suf);
            assert(suf =~= last@);
            assert(views_of(lines@.push(last)) =~= views_of(lines@).push(last@));
            assert(views_of(lines@) + seq![last@] =~= views_of(lines@).push(
                last@,
            ));
        }
        lines.push(last);
        lines
    } else {
        proof {
            assert(s@.skip(start as int) =~= Seq::<u8>::empty());
            assert(views_of(lines@) + lines_of(Seq::<u8>::empty()) =~= views_of(lines@));
        }
        lines
    }
}

/// The lines of a byte stream that the parsers interpret: logical lines
/// with empty, comment and space-indented lines removed.
pub fn content_lines_exec(s: &[u8]) -> (r: Vec<Vec<u8>>)
    ensures
        views_of(r@) == content_lines(s@),
{
    let all = lines_exec(s);
    let ghost lv = views_of(all@);
    let mut kept: Vec<Vec<u8>> = Vec::new();
    let mut i: usize = 0;
    let n: usize = all.len();
    proof {
        assert(lv.skip(0) =~= lv);
    }
    while i < n
        invariant
            n == all@.len(),
            0 <= i <= n,
            lv == views_of(all@),
            lv == lines_of(s@),
            keep_lines(lv) == views_of(kept@) + keep_lines(lv.skip(i as int)),
        decreases n - i,
    {
        let line = &all[i];
        let noise: bool = line.len() == 0 || line[0] == '#' as u8 || line[0] == ' ' as u8;
        proof {
            let suf = lv.skip(i as int);
            assert(suf[0] == lv[i as int]);
            assert(lv[i as int] == all@[i as int]@);
            assert(suf.drop_first() =~= lv.skip(i + 1));
            assert(noise == is_noise_line(suf[0]));
        }
        if !noise {
            let kept_line = subrange_vec(line.as_slice(), 0, line.len());
            proof {
                let suf = lv.skip(i as int);
                assert(kept_line@ =~= suf[0]);
                assert(views_of(kept@.push(kept_line)) =~= views_of(kept@).push(
                    kept_line@,
                ));
                assert(views_of(kept@) + (seq![suf[0]] + keep_lines(lv.skip(i + 1)))
                    =~= views_of(kept@).push(kept_line@) + keep_lines(lv.skip(i + 1)));
            }
            kept.push(kept_line);
        }
        i += 1;
    }
    proof {
        assert(lv.skip(n as int) =~= Seq::<Seq<u8>>::empty());
        assert(views_of(kept@) + keep_lines(Seq::<Seq<u8>>::empty()) =~= views_of(kept@));
    }
    kept
}

/// Whether `p` is a prefix of `l`.
pub open spec fn starts_with(l: Seq<u8>, p: Seq<u8>) -> bool {
    l.len() >= p.len() && l.take(p.len() as int) == p
}

/// Compare two byte strings for equality.
pub fn bytes_eq(a: &[u8], b: &[u8]) -> (r: bool)
    ensures
        r == (a@ == b@),
{
    let n: usize = a.len();
    if n != b.len() {
        proof {
            assert(a@.len() != b@.len());
        }
        return false;
    }
    let mut i: usize = 0;
    while i < n
        invariant
            n == a@.len() == b@.len(),
            0 <= i <= n,
            forall|k: int| 0 <= k < i ==> a@[k] == b@[k],
        decreases n - i,
    {
        if a[i] != b[i] {
            proof {
                assert(a@[i as int] != b@[i as int]);
            }
            return false;
        }
        i += 1;
    }
    proof {
        assert(a@ =~= b@);
    }
    true
}

/// Whether the byte string `p` is a prefix of `l`.
pub fn starts_with_exec(l: &[u8], p: &[u8]) -> (r: bool)
    ensures
        r == starts_with(l@, p@),
{
    let m: usize = p.len();
    if l.len() < m {
        return false;
    }
    let mut i: usize = 0;
    while i < m
        invariant
            m == p@.len() <= l@.len(),
            0 <= i <= m,
            forall|k: int| 0 <= k < i ==> l@[k] == p@[k],
        decreases m - i,
    {
        if l[i] != p[i] {
            proof {
                assert(l@.take(m as int)[i as int] == l@[i as int]);
                assert(l@[i as int] != p@[i as int]);
            }
            return false;
        }
        i += 1;
    }
    proof {
        assert(l@.take(m as int) =~= p@);
    }
    true
}

/// Splitting into lines distributes over concatenation at a line
/// boundary: when `s1` is empty or ends in a line feed, the lines of
/// `s1 + s2` are the lines of `s1` followed by the lines of `s2`.
pub proof fn lemma_lines_of_append(s1: Seq<u8>, s2: Seq<u8>)
    requires
        s1.len() > 0 ==> s1.last() == '\n' as u8,
    ensures
        lines_of(s1 + s2) == lines_of(s1) + lines_of(s2),
    decreases s1.len(),
{
    if s1.len() == 0 {
        assert(s1 + s2 =~= s2);
        assert(lines_of(s1) + lines_of(s2) =~= lines_of(s2));
    } else {
        lemma_find_byte(s1, '\n' as u8);
        let i = find_byte(s1, '\n' as u8) as int;
        assert(i < s1.len()) by {
            if i == s1.len() {
                assert(s1[s1.len() - 1] != '\n' as u8);
            }
        }
        let whole = s1 + s2;
        assert forall|j: int| 0 <= j < i implies whole[j] != '\n' as u8 by {
            assert(whole[j] == s1[j]);
        }
        assert(whole[i] == s1[i]);
        lemma_lines_of_found(whole, i);
        lemma_lines_of_found(s1, i);
        assert(whole.take(i) =~= s1.take(i));
        assert(whole.skip(i + 1) =~= s1.skip(i + 1) + s2);
        if i + 1 < s1.len() {
            assert(s1.skip(i + 1).last() == s1.last());
        }
        lemma_lines_of_append(s1.skip(i + 1), s2);
        assert(seq![chomp_cr(s1.take(i))] + (lines_of(s1.skip(i + 1)) + lines_of(s2)) =~= (seq![
            chomp_cr(s1.take(i)),
        ] + lines_of(s1.skip(i + 1))) + lines_of(s2));
    }
}

/// Empty lines, `#` comment lines and space-indented lines are invisible
/// to both parsers, whatever they hold: inserting one, with its line
/// feed, at any line boundary leaves the surviving lines unchanged, so
/// it can neither contribute to a parse nor fail one.
pub proof fn lemma_noise_line_ignored(s1: Seq<u8>, l: Seq<u8>, s2: Seq<u8>)
    requires
        s1.len() > 0 ==> s1.last() == '\n' as u8,
        forall|j: int| 0 <= j < l.len() ==> l[j] != '\n' as u8,
        is_noise_line(l),
    ensures
        content_lines(s1 + l + seq!['\n' as u8] + s2) == content_lines(s1 + s2),
{
    let nl = seq!['\n' as u8];
    let mid = l + nl;
    let whole = s1 + l + nl + s2;
    assert(whole =~= s1 + (mid + s2));
    lemma_lines_of_append(s1, mid + s2);
    assert(mid.last() == '\n' as u8);
    lemma_lines_of_append(mid, s2);
    assert forall|j: int| 0 <= j < l.len() implies mid[j] != '\n' as u8 by {
        assert(mid[j] == l[j]);
    }
    assert(mid[l.len() as int] == '\n' as u8);
    lemma_lines_of_found(mid, l.len() as int);
    assert(mid.take(l.len() as int) =~= l);
    assert(mid.skip(l.len() as int + 1) =~= Seq::<u8>::empty());
    assert(lines_of(mid) =~= seq![chomp_cr(l)]);
    // a noise line stays noise after its carriage return is dropped
    let cl = chomp_cr(l);
    assert(is_noise_line(cl)) by {
        if l.len() > 0 && l.last() == '\r' as u8 {
            if l.len() > 1 {
                assert(cl[0] == l[0]);
            }
        }
    }
    lemma_keep_lines_add(lines_of(s1), lines_of(mid) + lines_of(s2));
    lemma_keep_lines_add(lines_of(mid), lines_of(s2));
    assert(keep_lines(lines_of(mid)) =~= Seq::<Seq<u8>>::empty()) by {
        assert(keep_lines(Seq::<Seq<u8>>::empty()) == Seq::<Seq<u8>>::empty());
        assert(lines_of(mid)[0] == cl);
        assert(lines_of(mid).drop_first() =~= Seq::<Seq<u8>>::empty());
    }
    lemma_lines_of_append(s1, s2);
    lemma_keep_lines_add(lines_of(s1), lines_of(s2));
    assert(lines_of(s1 + (mid + s2)) == lines_of(s1) + (lines_of(mid) + lines_of(s2)));
    assert(keep_lines(lines_of(s1)) + (Seq::<Seq<u8>>::empty() + keep_lines(lines_of(s2)))
        =~= keep_lines(lines_of(s1)) + keep_lines(lines_of(s2)));
    assert(content_lines(s1 + l + nl + s2) == content_lines(s1 + s2));
}

} // verus!
