//! The range-query protocol: what one reply of the endpoint means.
use vstd::prelude::*;

use crate::digests::string_from;
use crate::error::Error;
use crate::string_set::StringSet;
use crate::text::chars_of;

verus! {

/// Lines of `s` as `BufRead::lines` cuts them at `'\n'`, with a last,
/// possibly empty, line after the final newline.
pub open spec fn split_lines(s: Seq<char>) -> Seq<Seq<char>>
    decreases s.len(),
{
    if s.len() == 0 {
        seq![Seq::<char>::empty()]
    } else {
        let ls = split_lines(s.drop_last());
        if s.last() == '\n' {
            ls.push(Seq::<char>::empty())
        } else {
            ls.update(ls.len() - 1, ls.last().push(s.last()))
        }
    }
}

/// The Unicode `White_Space` property, which `str::trim` strips.
pub open spec fn is_white(c: char) -> bool {
    ('\u{9}' <= c && c <= '\u{d}') || c == ' ' || c == '\u{85}' || c == '\u{a0}' || c
        == '\u{1680}' || ('\u{2000}' <= c && c <= '\u{200a}') || c == '\u{2028}' || c
        == '\u{2029}' || c == '\u{202f}' || c == '\u{205f}' || c == '\u{3000}'
}

pub open spec fn trim_start(s: Seq<char>) -> Seq<char>
    decreases s.len(),
{
    if s.len() > 0 && is_white(s[0]) {
        trim_start(s.drop_first())
    } else {
        s
    }
}

pub open spec fn trim_end(s: Seq<char>) -> Seq<char>
    decreases s.len(),
{
    if s.len() > 0 && is_white(s.last()) {
        trim_end(s.drop_last())
    } else {
        s
    }
}

/// `s` without leading and trailing white space.
pub open spec fn trim(s: Seq<char>) -> Seq<char> {
    trim_end(trim_start(s))
}

pub open spec fn lower_char(c: char) -> char {
    if 'A' <= c && c <= 'Z' {
        (((c as u8) + 32) as u8) as char
    } else {
        c
    }
}

/// ASCII letters in lower case, everything else as it is.
pub open spec fn ascii_lower(s: Seq<char>) -> Seq<char> {
    s.map_values(|c: char| lower_char(c))
}

/// `k` is the position of the first `:` in `t`.
pub open spec fn first_colon(t: Seq<char>, k: int) -> bool {
    0 <= k < t.len() && t[k] == ':' && forall|m: int| 0 <= m < k ==> t[m] != ':'
}

/// What one line of a range response gives: `None` where it is malformed,
/// `Some(None)` where it is blank, else the full digest that it names, the
/// prefix and the part before the first `:` joined and lowercased.
pub open spec fn line_record(prefix: Seq<char>, line: Seq<char>) -> Option<Option<Seq<char>>> {
    let t = trim(line);
    if t.len() == 0 {
        Some(None)
    } else if exists|k: int| first_colon(t, k) {
        let k = choose|k: int| first_colon(t, k);
        Some(Some(ascii_lower(prefix + t.take(k))))
    } else {
        None
    }
}

/// The digests that `lines` name, in order, or `None` where one of them is
/// malformed.
pub open spec fn records(prefix: Seq<char>, lines: Seq<Seq<char>>) -> Option<Seq<Seq<char>>>
    decreases lines.len(),
{
    if lines.len() == 0 {
        Some(Seq::empty())
    } else {
        match records(prefix, lines.drop_last()) {
            None => None,
            Some(acc) => match line_record(prefix, lines.last()) {
                None => None,
                Some(None) => Some(acc),
                Some(Some(d)) => Some(acc.push(d)),
            },
        }
    }
}

/// The full digests that a 200 reply for `prefix` with body `body` lists,
/// or `None` where a record is malformed.
pub open spec fn range_digests(prefix: Seq<char>, body: Seq<char>) -> Option<Set<Seq<char>>> {
    match records(prefix, split_lines(body)) {
        None => None,
        Some(ds) => Some(ds.to_set()),
    }
}

fn is_white_char(c: char) -> (r: bool)
    ensures
        r == is_white(c),
{
    ('\u{9}' <= c && c <= '\u{d}') || c == ' ' || c == '\u{85}' || c == '\u{a0}' || c
        == '\u{1680}' || ('\u{2000}' <= c && c <= '\u{200a}') || c == '\u{2028}' || c
        == '\u{2029}' || c == '\u{202f}' || c == '\u{205f}' || c == '\u{3000}'
}

fn lower(c: char) -> (r: char)
    ensures
        r == lower_char(c),
{
    if 'A' <= c && c <= 'Z' {
        ((c as u8) + 32) as char
    } else {
        c
    }
}

/// Reads one line of a range response.
fn parse_line(prefix: &Vec<char>, line: &Vec<char>) -> (r: Result<Option<String>, Error>)
    ensures
        match line_record(prefix@, line@) {
            None => r == Err::<Option<String>, Error>(Error::ResponseMalformed),
            Some(None) => r == Ok::<Option<String>, Error>(None),
            Some(Some(d)) => r matches Ok(Some(s)) && s@ == d,
        },
{
    let ghost s = line@;
    assert(s.subrange(0, s.len() as int) =~= s);
    let mut a: usize = 0;
    while a < line.len() && is_white_char(line[a])
        invariant
            s == line@,
            a <= line.len(),
            trim_start(s.subrange(a as int, s.len() as int)) == trim_start(s),
        decreases line.len() - a,
    {
        assert(s.subrange(a as int, s.len() as int).drop_first() =~= s.subrange(a + 1, s.len() as int));
        a = a + 1;
    }
    assert(s.subrange(0, s.len() as int) =~= s);
    let mut b: usize = line.len();
    while b > a && is_white_char(line[b - 1])
        invariant
            s == line@,
            a <= b <= line.len(),
            trim_start(s) == s.subrange(a as int, s.len() as int),
            trim(s) == trim_end(s.subrange(a as int, b as int)),
        decreases b,
    {
        assert(s.subrange(a as int, b as int).drop_last() =~= s.subrange(a as int, b - 1));
        b = b - 1;
    }
    let ghost t = s.subrange(a as int, b as int);
    assert(trim(s) == t);
    if a == b {
        return Ok(None);
    }
    let mut k: usize = a;
    while k < b && line[k] != ':'
        invariant
            s == line@,
            a <= k <= b,
            b <= line.len(),
            t == s.subrange(a as int, b as int),
            forall|m: int| 0 <= m < k - a ==> t[m] != ':',
        decreases b - k,
    {
        k = k + 1;
    }
    if k == b {
        return Err(Error::ResponseMalformed);
    }
    assert(first_colon(t, k - a));
    let ghost kk = choose|kk: int| first_colon(t, kk);
    assert(kk == k - a) by {
        if kk < k - a {
            assert(t[kk] != ':');
        } else if kk > k - a {
            assert(t[k - a] != ':');
        }
    }
    let mut out: Vec<char> = Vec::new();
    let mut j: usize = 0;
    while j < prefix.len()
        invariant
            s == line@,
            j <= prefix.len(),
            out@ == ascii_lower(prefix@.take(j as int)),
        decreases prefix.len() - j,
    {
        out.push(lower(prefix[j]));
        j = j + 1;
        assert(out@ =~= ascii_lower(prefix@.take(j as int)));
    }
    let mut m: usize = a;
    while m < k
        invariant
            s == line@,
            a <= m <= k,
            k < b <= line.len(),
            t == s.subrange(a as int, b as int),
            out@ == ascii_lower(prefix@ + t.take(m - a)),
        decreases k - m,
    {
        out.push(lower(line[m]));
        m = m + 1;
        assert(out@ =~= ascii_lower(prefix@ + t.take(m - a)));
    }
    Ok(Some(string_from(&out)))
}

/// Adds what `line` names to `set`, where no line before it was malformed;
/// tells whether none is so far.
fn absorb(prefix: &Vec<char>, line: &Vec<char>, set: &mut StringSet, ok: bool) -> (r: bool)
    requires
        old(set).wf(),
    ensures
        final(set).wf(),
        r == (ok && line_record(prefix@, line@) is Some),
        !r ==> final(set)@ == old(set)@,
        r ==> match line_record(prefix@, line@) {
            Some(Some(d)) => final(set)@ == old(set)@.insert(d),
            _ => final(set)@ == old(set)@,
        },
{
    if !ok {
        return false;
    }
    match parse_line(prefix, line) {
        Err(_) => false,
        Ok(None) => true,
        Ok(Some(d)) => {
            set.insert(d);
            true
        },
    }
}

/// The digests that a 200 reply for `prefix` lists: each non-blank line is
/// `SUFFIX:COUNT`, the count is dropped and the digest is the prefix and the
/// suffix joined and lowercased. A line without `:` makes the whole reply
/// malformed.
pub fn parse_range(prefix: &str, body: &str) -> (r: Result<StringSet, Error>)
    ensures
        match range_digests(prefix@, body@) {
            None => r == Err::<StringSet, Error>(Error::ResponseMalformed),
            Some(ds) => r matches Ok(set) && set.wf() && set@ == ds,
        },
{
    let pcs = chars_of(prefix);
    let cs = chars_of(body);
    let mut set = StringSet::new();
    let mut ok = true;
    let mut cur: Vec<char> = Vec::new();
    let ghost mut done: Seq<Seq<char>> = Seq::empty();
    let ghost mut acc: Seq<Seq<char>> = Seq::empty();
    assert(cs@.take(0) =~= Seq::<char>::empty());
    let mut i: usize = 0;
    while i < cs.len()
        invariant
            i <= cs.len(),
            pcs@ == prefix@,
            cs@ == body@,
            set.wf(),
            split_lines(cs@.take(i as int)) == done.push(cur@),
            ok ==> records(prefix@, done) == Some(acc) && set@ == acc.to_set(),
            !ok ==> records(prefix@, done) is None,
        decreases cs.len() - i,
    {
        assert(cs@.take(i + 1).drop_last() =~= cs@.take(i as int));
        if cs[i] == '\n' {
            let ghost lines = done.push(cur@);
            assert(lines.drop_last() == done);
            let ghost before = set@;
            ok = absorb(&pcs, &cur, &mut set, ok);
            proof {
                if ok {
                    if let Some(Some(d)) = line_record(prefix@, cur@) {
                        acc.lemma_push_to_set_commute(d);
                        acc = acc.push(d);
                    }
                }
                done = lines;
            }
            cur = Vec::new();
        } else {
            cur.push(cs[i]);
        }
        i = i + 1;
    }
    assert(cs@.take(i as int) =~= cs@);
    let ghost lines = done.push(cur@);
    assert(lines.drop_last() == done);
    ok = absorb(&pcs, &cur, &mut set, ok);
    proof {
        if ok {
            if let Some(Some(d)) = line_record(prefix@, cur@) {
                acc.lemma_push_to_set_commute(d);
                acc = acc.push(d);
            }
        }
    }
    if ok {
        Ok(set)
    } else {
        Err(Error::ResponseMalformed)
    }
}

/// The value of a string of decimal digits.
pub open spec fn decimal(s: Seq<u8>) -> int
    decreases s.len(),
{
    if s.len() == 0 {
        0
    } else {
        10 * decimal(s.drop_last()) + (s.last() - 48)
    }
}

pub open spec fn all_digits(s: Seq<u8>) -> bool {
    forall|i: int| 0 <= i < s.len() ==> 48 <= #[trigger] s[i] <= 57
}

/// The digits of a whole-number header: all after one optional `+`.
pub open spec fn unsigned_digits(raw: Seq<u8>) -> Seq<u8> {
    if raw.len() > 0 && raw[0] == 43 {
        raw.drop_first()
    } else {
        raw
    }
}

/// A header value read as `u64` as `str::parse` reads it: an optional `+`,
/// then at least one decimal digit, the value in range; `None` otherwise,
/// bytes that are not visible text among them.
pub open spec fn header_u64(raw: Seq<u8>) -> Option<u64> {
    let d = unsigned_digits(raw);
    if d.len() > 0 && all_digits(d) && decimal(d) <= u64::MAX {
        Some(decimal(d) as u64)
    } else {
        None
    }
}

proof fn lemma_decimal_grows(s: Seq<u8>, j: int)
    requires
        all_digits(s),
        0 <= j <= s.len(),
    ensures
        0 <= decimal(s.take(j)) <= decimal(s),
    decreases s.len(),
{
    if s.len() > 0 {
        let t = s.drop_last();
        assert(all_digits(t)) by {
            assert forall|i: int| 0 <= i < t.len() implies 48 <= #[trigger] t[i] <= 57 by {
                assert(t[i] == s[i]);
            }
        }
        if j == s.len() {
            assert(s.take(j) =~= s);
            lemma_decimal_grows(t, 0);
        } else {
            assert(s.take(j) =~= t.take(j));
            lemma_decimal_grows(t, j);
        }
        assert(48 <= s[s.len() - 1] <= 57);
    } else {
        assert(s.take(j) =~= s);
    }
}

/// Reads the value of a `retry-after` header.
pub fn parse_retry_after(raw: &Vec<u8>) -> (r: Option<u64>)
    ensures
        r == header_u64(raw@),
{
    let ghost d = unsigned_digits(raw@);
    let start: usize = if raw.len() > 0 && raw[0] == 43 { 1 } else { 0 };
    assert(d =~= raw@.subrange(start as int, raw@.len() as int));
    if start == raw.len() {
        return None;
    }
    let mut v: u64 = 0;
    let mut i: usize = start;
    assert(d.take(0) =~= Seq::<u8>::empty());
    while i < raw.len()
        invariant
            start <= i <= raw.len(),
            d == raw@.subrange(start as int, raw@.len() as int),
            d == unsigned_digits(raw@),
            all_digits(d.take(i - start)),
            v == decimal(d.take(i - start)),
        decreases raw.len() - i,
    {
        let c = raw[i];
        if c < 48 || c > 57 {
            assert(d[i - start] == raw@[i as int]);
            assert(!all_digits(d));
            return None;
        }
        let dig: u64 = (c - 48) as u64;
        assert(d.take(i - start + 1).drop_last() =~= d.take(i - start));
        assert(d.take(i - start + 1).last() == c);
        assert(all_digits(d.take(i - start + 1))) by {
            assert forall|m: int| 0 <= m < i - start + 1 implies 48 <= #[trigger] d.take(i - start + 1)[m] <= 57 by {
                if m < i - start {
                    assert(d.take(i - start + 1)[m] == d.take(i - start)[m]);
                }
            }
        }
        assert(decimal(d.take(i - start + 1)) == 10 * v + dig);
        if v > (u64::MAX - dig) / 10 {
            proof {
                assert(10 * v + dig > u64::MAX) by (nonlinear_arith)
                    requires
                        v > (u64::MAX - dig) / 10,
                        dig <= 9,
                ;
                if all_digits(d) {
                    lemma_decimal_grows(d, i - start + 1);
                }
            }
            return None;
        }
        assert(10 * v + dig <= u64::MAX) by (nonlinear_arith)
            requires
                v <= (u64::MAX - dig) / 10,
                dig <= 9,
        ;
        v = v * 10 + dig;
        i = i + 1;
    }
    assert(d.take(i - start) =~= d);
    Some(v)
}

/// One reply of the range endpoint, as far as the protocol reads it.
#[derive(Debug)]
pub enum Reply {
    /// Status 200 and its body.
    Body(String),
    /// Status 429 and the raw bytes of its `retry-after` header, if any.
    RateLimited(Option<Vec<u8>>),
    /// Any other status.
    Status(u16),
}

/// What to do after a reply.
#[derive(Debug)]
pub enum Step {
    /// Wait this many seconds, then send the same request again.
    Retry(u64),
    /// The query is answered with these full digests.
    Found(StringSet),
}

/// Seconds to wait when the server asks for `n`: one more, to absorb
/// rounding and clock skew.
pub open spec fn wait_secs(n: u64) -> u64 {
    if n == u64::MAX {
        n
    } else {
        (n + 1) as u64
    }
}

/// Decides what one reply to the query for `prefix` means.
pub fn next_step(prefix: &str, reply: Reply) -> (r: Result<Step, Error>)
    ensures
        match reply {
            Reply::Body(b) => match range_digests(prefix@, b@) {
                None => r == Err::<Step, Error>(Error::ResponseMalformed),
                Some(ds) => r matches Ok(Step::Found(set)) && set.wf() && set@ == ds,
            },
            Reply::RateLimited(None) => r == Err::<Step, Error>(Error::RetryAfterMissing),
            Reply::RateLimited(Some(raw)) => match header_u64(raw@) {
                None => r == Err::<Step, Error>(Error::RetryAfterMalformed),
                Some(n) => r matches Ok(Step::Retry(w)) && w == wait_secs(n),
            },
            Reply::Status(c) => r == Err::<Step, Error>(Error::ResponseStatus(c)),
        },
{
    match reply {
        Reply::Body(b) => match parse_range(prefix, b.as_str()) {
            Ok(set) => Ok(Step::Found(set)),
            Err(e) => Err(e),
        },
        Reply::RateLimited(None) => Err(Error::RetryAfterMissing),
        Reply::RateLimited(Some(raw)) => match parse_retry_after(&raw) {
            None => Err(Error::RetryAfterMalformed),
            Some(n) => Ok(Step::Retry(n.saturating_add(1))),
        },
        Reply::Status(c) => Err(Error::ResponseStatus(c)),
    }
}

} // verus!
