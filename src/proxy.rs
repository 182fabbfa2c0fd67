//! Request screening for the local proxy: which methods may be accelerated,
//! and the byte range an HTTP `Range` header asks for.

use vstd::prelude::*;
use vstd::string::StrSliceExecFns;

verus! {

/// Unicode `White_Space`, the characters that `str::trim` removes.
pub open spec fn is_white(c: char) -> bool {
    let u = c as u32;
    (9 <= u <= 13) || u == 32 || u == 0x85 || u == 0xa0 || u == 0x1680 || (0x2000 <= u <= 0x200a)
        || u == 0x2028 || u == 0x2029 || u == 0x202f || u == 0x205f || u == 0x3000
}

pub open spec fn trim_start(s: Seq<char>) -> Seq<char>
    decreases s.len(),
{
    if s.len() > 0 && is_white(s[0]) {
        trim_start(s.drop_first())
    } else {
        s
    }
}

pub open spec fn trim_end(s: Seq<char>) -> Seq<char>
    decreases s.len(),
{
    if s.len() > 0 && is_white(s.last()) {
        trim_end(s.drop_last())
    } else {
        s
    }
}

/// `s` without leading and trailing white space.
pub open spec fn trim(s: Seq<char>) -> Seq<char> {
    trim_end(trim_start(s))
}

pub open spec fn is_digit(c: char) -> bool {
    '0' <= c <= '9'
}

pub open spec fn digit_value(c: char) -> nat {
    ((c as u32) - ('0' as u32)) as nat
}

/// Value of a sequence of decimal digits.
pub open spec fn decimal_value(d: Seq<char>) -> nat
    decreases d.len(),
{
    if d.len() == 0 {
        0
    } else {
        decimal_value(d.drop_last()) * 10 + digit_value(d.last())
    }
}

/// The digits of a number with an optional leading `+`.
pub open spec fn unsigned_digits(s: Seq<char>) -> Seq<char> {
    if s.len() > 0 && s[0] == '+' {
        s.drop_first()
    } else {
        s
    }
}

pub open spec fn all_digits(d: Seq<char>) -> bool {
    forall|i: int| 0 <= i < d.len() ==> is_digit(#[trigger] d[i])
}

/// How `u64::from_str` reads a string: an optional `+`, then one or more
/// decimal digits whose value fits in 64 bits.
pub open spec fn parse_u64_spec(s: Seq<char>) -> Option<u64> {
    let d = unsigned_digits(s);
    if d.len() > 0 && all_digits(d) && decimal_value(d) <= u64::MAX {
        Some(decimal_value(d) as u64)
    } else {
        None
    }
}

/// Index of the first `c` in `s`, or -1.
pub open spec fn first_index(s: Seq<char>, c: char) -> int
    decreases s.len(),
{
    if s.len() == 0 {
        -1
    } else if s[0] == c {
        0
    } else if first_index(s.drop_first(), c) < 0 {
        -1
    } else {
        first_index(s.drop_first(), c) + 1
    }
}

/// The range of a header value `bytes=start-end` (inclusive; surrounding
/// white space allowed). An open end (`bytes=start-`), a malformed value or
/// `end < start` give no range.
pub open spec fn range_header_spec(s: Seq<char>) -> Option<(u64, u64)> {
    let t = trim(s);
    let prefix = seq!['b', 'y', 't', 'e', 's', '='];
    if t.len() < 6 || t.subrange(0, 6) != prefix {
        None
    } else {
        let rest = t.subrange(6, t.len() as int);
        let k = first_index(rest, '-');
        if k < 0 {
            None
        } else {
            let a = trim(rest.subrange(0, k));
            let b = trim(rest.subrange(k + 1, rest.len() as int));
            match parse_u64_spec(a) {
                None => None,
                Some(start) => if b.len() == 0 {
                    None
                } else {
                    match parse_u64_spec(b) {
                        None => None,
                        Some(end) => if end < start {
                            None
                        } else {
                            Some((start, end))
                        },
                    }
                },
            }
        }
    }
}

fn is_white_exec(c: char) -> (r: bool)
    ensures
        r == is_white(c),
{
    let u = c as u32;
    (9 <= u && u <= 13) || u == 32 || u == 0x85 || u == 0xa0 || u == 0x1680 || (0x2000 <= u && u <= 0x200a)
        || u == 0x2028 || u == 0x2029 || u == 0x202f || u == 0x205f || u == 0x3000
}

proof fn lemma_trim_start(s: Seq<char>, i: int)
    requires
        0 <= i <= s.len(),
        forall|j: int| 0 <= j < i ==> is_white(#[trigger] s[j]),
        i == s.len() || !is_white(s[i]),
    ensures
        trim_start(s) == s.subrange(i, s.len() as int),
    decreases i,
{
    if i == 0 {
        assert(s.subrange(0, s.len() as int) =~= s);
    } else {
        let d = s.drop_first();
        assert forall|j: int| 0 <= j < i - 1 implies is_white(#[trigger] d[j]) by {
            assert(d[j] == s[j + 1]);
        }
        if i - 1 < d.len() {
            assert(d[i - 1] == s[i]);
        }
        lemma_trim_start(d, i - 1);
        assert(d.subrange(i - 1, d.len() as int) =~= s.subrange(i, s.len() as int));
    }
}

proof fn lemma_trim_end(s: Seq<char>, e: int)
    requires
        0 <= e <= s.len(),
        forall|j: int| e <= j < s.len() ==> is_white(#[trigger] s[j]),
        e == 0 || !is_white(s[e - 1]),
    ensures
        trim_end(s) == s.subrange(0, e),
    decreases s.len() - e,
{
    if e == s.len() {
        assert(s.subrange(0, e) =~= s);
    } else {
        let d = s.drop_last();
        assert forall|j: int| e <= j < d.len() implies is_white(#[trigger] d[j]) by {
            assert(d[j] == s[j]);
        }
        if e > 0 {
            assert(d[e - 1] == s[e - 1]);
        }
        lemma_trim_end(d, e);
        assert(d.subrange(0, e) =~= s.subrange(0, e));
    }
}

/// The characters of `s` in `[lo, hi)` without surrounding white space, as
/// bounds into `s`.
fn trim_bounds(s: &Vec<char>, lo: usize, hi: usize) -> (r: (usize, usize))
    requires
        lo <= hi <= s@.len(),
    ensures
        lo <= r.0 <= r.1 <= hi,
        s@.subrange(r.0 as int, r.1 as int) == trim(s@.subrange(lo as int, hi as int)),
{
    let ghost sub = s@.subrange(lo as int, hi as int);
    let mut i = lo;
    while i < hi && is_white_exec(s[i])
        invariant
            lo <= i <= hi,
            hi <= s@.len(),
            sub == s@.subrange(lo as int, hi as int),
            forall|j: int| lo <= j < i ==> is_white(#[trigger] s@[j]),
        decreases hi - i,
    {
        i = i + 1;
    }
    proof {
        assert forall|j: int| 0 <= j < i - lo implies is_white(#[trigger] sub[j]) by {
            assert(sub[j] == s@[lo + j]);
        }
        if i < hi {
            assert(sub[i - lo] == s@[i as int]);
        }
        lemma_trim_start(sub, i - lo);
    }
    let ghost ts = sub.subrange(i - lo, sub.len() as int);
    let mut e = hi;
    while e > i && is_white_exec(s[e - 1])
        invariant
            lo <= i <= e <= hi,
            hi <= s@.len(),
            ts == s@.subrange(i as int, hi as int),
            forall|j: int| e <= j < hi ==> is_white(#[trigger] s@[j]),
        decreases e - i,
    {
        e = e - 1;
    }
    proof {
        assert(ts =~= s@.subrange(i as int, hi as int));
        assert forall|j: int| e - i <= j < ts.len() implies is_white(#[trigger] ts[j]) by {
            assert(ts[j] == s@[i + j]);
        }
        if e > i {
            assert(ts[e - i - 1] == s@[e - 1]);
        }
        lemma_trim_end(ts, e - i);
        assert(ts.subrange(0, e - i) =~= s@.subrange(i as int, e as int));
    }
    (i, e)
}

proof fn lemma_decimal_prefix_grows(d: Seq<char>, i: int, j: int)
    requires
        0 <= i <= j <= d.len(),
    ensures
        decimal_value(d.subrange(0, i)) <= decimal_value(d.subrange(0, j)),
    decreases j - i,
{
    if i < j {
        lemma_decimal_prefix_grows(d, i, j - 1);
        assert(d.subrange(0, j).drop_last() =~= d.subrange(0, j - 1));
    }
}

/// Reads `s[lo..hi]` as `u64::from_str` does.
fn parse_u64(s: &Vec<char>, lo: usize, hi: usize) -> (r: Option<u64>)
    requires
        lo <= hi <= s@.len(),
    ensures
        r == parse_u64_spec(s@.subrange(lo as int, hi as int)),
{
    let ghost sub = s@.subrange(lo as int, hi as int);
    let mut i = lo;
    if i < hi && s[i] == '+' {
        i = i + 1;
    }
    let ghost d = s@.subrange(i as int, hi as int);
    proof {
        if lo < hi && s@[lo as int] == '+' {
            assert(d =~= sub.drop_first());
        } else {
            assert(d =~= sub);
        }
    }
    if i == hi {
        return None;
    }
    let start = i;
    let mut v: u64 = 0;
    while i < hi
        invariant
            start <= i <= hi,
            hi <= s@.len(),
            d == s@.subrange(start as int, hi as int),
            sub == s@.subrange(lo as int, hi as int),
            d == unsigned_digits(sub),
            d.len() > 0,
            forall|j: int| start <= j < i ==> is_digit(#[trigger] s@[j]),
            v == decimal_value(d.subrange(0, i - start)),
        decreases hi - i,
    {
        let c = s[i];
        if !('0' <= c && c <= '9') {
            proof {
                assert(d[i - start] == c);
                assert(!is_digit(d[i - start]));
            }
            return None;
        }
        let digit = (c as u32 - '0' as u32) as u64;
        proof {
            assert(d.subrange(0, i - start + 1).drop_last() =~= d.subrange(0, i - start));
            assert(d[i - start] == c);
        }
        if v > (u64::MAX - digit) / 10 {
            proof {
                assert(v * 10 + digit > u64::MAX) by (nonlinear_arith)
                    requires
                        v > (u64::MAX - digit) / 10,
                        digit <= 9,
                ;
                lemma_decimal_prefix_grows(d, i - start + 1, d.len() as int);
                assert(d.subrange(0, d.len() as int) =~= d);
            }
            return None;
        }
        proof {
            assert(v * 10 + digit <= u64::MAX) by (nonlinear_arith)
                requires
                    v <= (u64::MAX - digit) / 10,
                    digit <= 9,
            ;
        }
        v = v * 10 + digit;
        i = i + 1;
    }
    proof {
        assert(d.subrange(0, d.len() as int) =~= d);
        assert forall|j: int| 0 <= j < d.len() implies is_digit(#[trigger] d[j]) by {
            assert(d[j] == s@[start + j]);
        }
    }
    Some(v)
}

proof fn lemma_first_index(s: Seq<char>, c: char, k: int)
    requires
        -1 <= k < s.len(),
        forall|j: int| 0 <= j < (if k < 0 { s.len() as int } else { k }) ==> #[trigger] s[j] != c,
        k >= 0 ==> s[k] == c,
    ensures
        first_index(s, c) == k,
    decreases s.len(),
{
    if s.len() > 0 && s[0] != c {
        let d = s.drop_first();
        assert forall|j: int| 0 <= j < (if k < 0 { d.len() as int } else { k - 1 }) implies #[trigger] d[j] != c by {
            assert(d[j] == s[j + 1]);
        }
        if k >= 0 {
            assert(d[k - 1] == s[k]);
            lemma_first_index(d, c, k - 1);
        } else {
            lemma_first_index(d, c, -1);
        }
    }
}

/// Reads a `Range` header value: `bytes=start-end`, inclusive. An open end,
/// a malformed value or `end < start` give `None`.
pub fn parse_range_header(s: &str) -> (r: Option<(u64, u64)>)
    ensures
        r == range_header_spec(s@),
{
    let n = s.unicode_len();
    let mut cs: Vec<char> = Vec::new();
    let mut q: usize = 0;
    while q < n
        invariant
            0 <= q <= n,
            n == s@.len(),
            cs@ == s@.subrange(0, q as int),
        decreases n - q,
    {
        cs.push(s.get_char(q));
        q = q + 1;
        proof {
            assert(cs@ =~= s@.subrange(0, q as int));
        }
    }
    proof {
        assert(cs@ =~= s@);
        assert(s@.subrange(0, n as int) =~= s@);
    }
    let (t0, t1) = trim_bounds(&cs, 0, n);
    let ghost t = cs@.subrange(t0 as int, t1 as int);
    proof {
        assert(cs@.subrange(0, n as int) =~= s@);
    }
    if t1 - t0 < 6 || cs[t0] != 'b' || cs[t0 + 1] != 'y' || cs[t0 + 2] != 't' || cs[t0 + 3] != 'e'
        || cs[t0 + 4] != 's' || cs[t0 + 5] != '=' {
        proof {
            if t.len() >= 6 && t.subrange(0, 6) == seq!['b', 'y', 't', 'e', 's', '='] {
                assert(t.subrange(0, 6)[0] == t[0]);
                assert(t.subrange(0, 6)[1] == t[1]);
                assert(t.subrange(0, 6)[2] == t[2]);
                assert(t.subrange(0, 6)[3] == t[3]);
                assert(t.subrange(0, 6)[4] == t[4]);
                assert(t.subrange(0, 6)[5] == t[5]);
            }
        }
        return None;
    }
    proof {
        assert(t.subrange(0, 6) =~= seq!['b', 'y', 't', 'e', 's', '=']);
    }
    let r0 = t0 + 6;
    let ghost rest = t.subrange(6, t.len() as int);
    proof {
        assert(rest =~= cs@.subrange(r0 as int, t1 as int));
    }
    let mut k = r0;
    while k < t1 && cs[k] != '-'
        invariant
            r0 <= k <= t1,
            t1 <= cs@.len(),
            forall|j: int| r0 <= j < k ==> #[trigger] cs@[j] != '-',
        decreases t1 - k,
    {
        k = k + 1;
    }
    proof {
        let kk = if k < t1 { k - r0 } else { -1 };
        assert forall|j: int| 0 <= j < (if kk < 0 { rest.len() as int } else { kk }) implies #[trigger] rest[j] != '-' by {
            assert(rest[j] == cs@[r0 + j]);
        }
        if k < t1 {
            assert(rest[k - r0] == cs@[k as int]);
        }
        lemma_first_index(rest, '-', kk);
    }
    if k == t1 {
        return None;
    }
    let (a0, a1) = trim_bounds(&cs, r0, k);
    let (b0, b1) = trim_bounds(&cs, k + 1, t1);
    proof {
        assert(rest.subrange(0, k - r0) =~= cs@.subrange(r0 as int, k as int));
        assert(rest.subrange(k - r0 + 1, rest.len() as int) =~= cs@.subrange(k + 1, t1 as int));
    }
    let start = match parse_u64(&cs, a0, a1) {
        Some(v) => v,
        None => return None,
    };
    if b0 == b1 {
        return None;
    }
    let end = match parse_u64(&cs, b0, b1) {
        Some(v) => v,
        None => return None,
    };
    if end < start {
        return None;
    }
    Some((start, end))
}

/// A request is accelerated only for the method `GET` (in any case).
pub fn is_eligible(method: &[u8], path: &[u8]) -> (r: bool)
    ensures
        r == (method@.len() == 3 && (method@[0] == 71 || method@[0] == 103) && (method@[1] == 69
            || method@[1] == 101) && (method@[2] == 84 || method@[2] == 116)),
{
    method.len() == 3 && (method[0] == 71 || method[0] == 103) && (method[1] == 69 || method[1] == 101)
        && (method[2] == 84 || method[2] == 116)
}

/// Code point of a character's ASCII lower case.
pub open spec fn lower_ascii(c: char) -> int {
    if 'A' <= c <= 'Z' {
        (c as u32) + 32
    } else {
        c as int
    }
}

/// Equality ignoring ASCII case, as `str::eq_ignore_ascii_case`.
pub open spec fn eq_ignore_ascii_case(a: Seq<char>, b: Seq<char>) -> bool {
    a.len() == b.len() && forall|i: int| 0 <= i < a.len() ==> lower_ascii(#[trigger] a[i]) == lower_ascii(b[i])
}

/// The system proxy settings as the operating system reports them.
#[derive(Clone, Debug, Default)]
pub struct SystemProxyState {
    pub enabled: bool,
    pub server: String,
    pub proxy_override: String,
}

/// System proxy settings saved before they were changed, to restore later.
#[derive(Clone, Debug, Default)]
pub struct SavedProxyState {
    pub enabled: bool,
    pub server: String,
    pub proxy_override: String,
}

fn chars_of(s: &str) -> (r: Vec<char>)
    ensures
        r@ == s@,
{
    let n = s.unicode_len();
    let mut cs: Vec<char> = Vec::new();
    let mut q: usize = 0;
    while q < n
        invariant
            0 <= q <= n,
            n == s@.len(),
            cs@ == s@.subrange(0, q as int),
        decreases n - q,
    {
        cs.push(s.get_char(q));
        q = q + 1;
        proof {
            assert(cs@ =~= s@.subrange(0, q as int));
        }
    }
    proof {
        assert(s@.subrange(0, n as int) =~= s@);
    }
    cs
}

fn lower_ascii_exec(c: char) -> (r: u32)
    ensures
        r == lower_ascii(c),
{
    if 'A' <= c && c <= 'Z' {
        c as u32 + 32
    } else {
        c as u32
    }
}

/// Whether the system proxy is on and points at `ours` (`host:port`),
/// ignoring surrounding white space and ASCII case.
pub fn is_proxy_ours(state: &SystemProxyState, ours: &str) -> (r: bool)
    ensures
        r == (state.enabled && eq_ignore_ascii_case(trim(state.server@), ours@)),
{
    if !state.enabled {
        return false;
    }
    let server = chars_of(state.server.as_str());
    let target = chars_of(ours);
    let (lo, hi) = trim_bounds(&server, 0, server.len());
    proof {
        assert(server@.subrange(0, server@.len() as int) =~= server@);
    }
    let ghost t = server@.subrange(lo as int, hi as int);
    if hi - lo != target.len() {
        return false;
    }
    let mut i: usize = 0;
    while i < target.len()
        invariant
            0 <= i <= target@.len(),
            lo + target@.len() == hi,
            hi <= server@.len(),
            t == server@.subrange(lo as int, hi as int),
            t == trim(state.server@),
            target@ == ours@,
            forall|j: int| 0 <= j < i ==> lower_ascii(#[trigger] t[j]) == lower_ascii(target@[j]),
        decreases target@.len() - i,
    {
        if lower_ascii_exec(server[lo + i]) != lower_ascii_exec(target[i]) {
            proof {
                assert(t[i as int] == server@[lo + i]);
                assert(lower_ascii(t[i as int]) != lower_ascii(target@[i as int]));
                assert(!eq_ignore_ascii_case(t, target@));
            }
            return false;
        }
        proof {
            assert(t[i as int] == server@[lo + i]);
        }
        i = i + 1;
    }
    true
}

/// What `httparse` reads from a complete request head: the method, the path,
/// and each header's name and value, in order; `None` for a head that is
/// malformed or not complete yet.
pub uninterp spec fn http_head_of(buf: Seq<u8>) -> Option<(Seq<u8>, Seq<u8>, Seq<(Seq<u8>, Seq<u8>)>)>;

pub open spec fn headers_view(hs: Seq<(Vec<u8>, Vec<u8>)>) -> Seq<(Seq<u8>, Seq<u8>)> {
    Seq::new(hs.len(), |i: int| (hs[i].0@, hs[i].1@))
}

pub open spec fn head_view(r: Option<(Vec<u8>, Vec<u8>, Vec<(Vec<u8>, Vec<u8>)>)>) -> Option<
    (Seq<u8>, Seq<u8>, Seq<(Seq<u8>, Seq<u8>)>),
> {
    match r {
        Some((m, p, hs)) => Some((m@, p@, headers_view(hs@))),
        None => None,
    }
}

/// Relies on `httparse::Request::parse` (with room for 32 headers): the
/// parsed method, path and headers of a complete head, which depend on the
/// bytes alone.
#[verifier::external_body]
fn parse_head(buf: &[u8]) -> (r: Option<(Vec<u8>, Vec<u8>, Vec<(Vec<u8>, Vec<u8>)>)>)
    ensures
        head_view(r) == http_head_of(buf@),
{
    let mut headers = [httparse::EMPTY_HEADER; 32];
    let mut req = httparse::Request::new(&mut headers);
    match req.parse(buf) {
        Ok(httparse::Status::Complete(_)) => {},
        _ => return None,
    }
    let method = req.method?.as_bytes().to_vec();
    let path = req.path?.as_bytes().to_vec();
    Some((method, path, req.headers.iter().map(|h| (h.name.as_bytes().to_vec(), h.value.to_vec())).collect()))
}

/// Relies on `std::str::from_utf8`: it succeeds exactly on valid UTF-8 and
/// then holds the decoded characters.
#[verifier::external_body]
fn utf8_text(bytes: &[u8]) -> (r: Option<String>)
    ensures
        r is Some <==> vstd::utf8::valid_utf8(bytes@),
        r matches Some(t) ==> t@ == vstd::utf8::decode_utf8(bytes@),
{
    std::str::from_utf8(bytes).ok().map(|t| t.to_string())
}

/// ASCII lower case of a byte.
pub open spec fn lower_byte(b: u8) -> u8 {
    if 65 <= b <= 90 {
        (b + 32) as u8
    } else {
        b
    }
}

/// `name` equals the lower-case `target`, ignoring ASCII case.
pub open spec fn name_is(name: Seq<u8>, target: Seq<u8>) -> bool {
    name.len() == target.len() && forall|i: int| 0 <= i < name.len() ==> lower_byte(#[trigger] name[i]) == target[i]
}

pub open spec fn host_name() -> Seq<u8> {
    seq![104u8, 111, 115, 116]
}

pub open spec fn range_name() -> Seq<u8> {
    seq![114u8, 97, 110, 103, 101]
}

/// Value of the last header called `target`.
pub open spec fn last_value(hs: Seq<(Seq<u8>, Seq<u8>)>, target: Seq<u8>) -> Option<Seq<u8>>
    decreases hs.len(),
{
    if hs.len() == 0 {
        None
    } else if name_is(hs.last().0, target) {
        Some(hs.last().1)
    } else {
        last_value(hs.drop_last(), target)
    }
}

/// Some `Range` header is not valid UTF-8.
pub open spec fn bad_range(hs: Seq<(Seq<u8>, Seq<u8>)>) -> bool {
    exists|i: int| 0 <= i < hs.len() && name_is(hs[i].0, range_name()) && !vstd::utf8::valid_utf8(#[trigger] hs[i].1)
}

/// The method, path, `Host` value and requested range of a request head.
pub open spec fn request_spec(buf: Seq<u8>) -> Option<(Seq<u8>, Seq<u8>, Option<Seq<u8>>, Option<(u64, u64)>)> {
    match http_head_of(buf) {
        None => None,
        Some((m, p, hs)) => if bad_range(hs) {
            None
        } else {
            Some(
                (
                    m,
                    p,
                    last_value(hs, host_name()),
                    match last_value(hs, range_name()) {
                        Some(v) => range_header_spec(vstd::utf8::decode_utf8(v)),
                        None => None,
                    },
                ),
            )
        },
    }
}

fn name_is_exec(name: &Vec<u8>, target: &Vec<u8>) -> (r: bool)
    ensures
        r == name_is(name@, target@),
{
    if name.len() != target.len() {
        return false;
    }
    let mut i: usize = 0;
    while i < name.len()
        invariant
            0 <= i <= name@.len(),
            name@.len() == target@.len(),
            forall|j: int| 0 <= j < i ==> lower_byte(#[trigger] name@[j]) == target@[j],
        decreases name@.len() - i,
    {
        let b = name[i];
        let lower: u8 = if 65 <= b && b <= 90 {
            b + 32
        } else {
            b
        };
        if lower != target[i] {
            return false;
        }
        i = i + 1;
    }
    true
}

/// Reads a request head: its method, path, `Host` header (raw bytes) and the
/// range of its `Range` header. `None` when the head is incomplete or
/// malformed, or a `Range` header is not UTF-8.
pub fn parse_request(buf: &[u8]) -> (r: Option<(Vec<u8>, Vec<u8>, Option<Vec<u8>>, Option<(u64, u64)>)>)
    ensures
        match r {
            None => request_spec(buf@) is None,
            Some((m, p, h, g)) => request_spec(buf@) == Some::<(Seq<u8>, Seq<u8>, Option<Seq<u8>>, Option<(u64, u64)>)>(
                (m@, p@, match h {
                    Some(v) => Some(v@),
                    None => None,
                }, g),
            ),
        },
{
    let (method, path, headers) = match parse_head(buf) {
        Some(head) => head,
        None => return None,
    };
    let ghost hs = headers_view(headers@);
    let host_t: Vec<u8> = vec![104u8, 111, 115, 116];
    let range_t: Vec<u8> = vec![114u8, 97, 110, 103, 101];
    proof {
        assert(host_t@ =~= host_name());
        assert(range_t@ =~= range_name());
    }
    let mut host: Option<Vec<u8>> = None;
    let mut range_value: Option<Vec<u8>> = None;
    let mut i: usize = 0;
    while i < headers.len()
        invariant
            0 <= i <= headers@.len(),
            hs == headers_view(headers@),
            http_head_of(buf@) == Some::<(Seq<u8>, Seq<u8>, Seq<(Seq<u8>, Seq<u8>)>)>((method@, path@, hs)),
            host_t@ == host_name(),
            range_t@ == range_name(),
            !bad_range(hs.subrange(0, i as int)),
            match host {
                Some(v) => last_value(hs.subrange(0, i as int), host_name()) == Some(v@),
                None => last_value(hs.subrange(0, i as int), host_name()) is None,
            },
            match range_value {
                Some(v) => last_value(hs.subrange(0, i as int), range_name()) == Some(v@),
                None => last_value(hs.subrange(0, i as int), range_name()) is None,
            },
        decreases headers@.len() - i,
    {
        let ghost pre = hs.subrange(0, i as int + 1);
        proof {
            assert(pre.drop_last() =~= hs.subrange(0, i as int));
            assert(pre.last() == hs[i as int]);
        }
        let name = &headers[i].0;
        let value = &headers[i].1;
        if name_is_exec(name, &host_t) {
            host = Some(vstd::slice::slice_to_vec(value.as_slice()));
        }
        if name_is_exec(name, &range_t) {
            match utf8_text(value.as_slice()) {
                Some(_) => {
                    range_value = Some(vstd::slice::slice_to_vec(value.as_slice()));
                },
                None => {
                    proof {
                        assert(hs[i as int] == (name@, value@));
                        assert(name_is(hs[i as int].0, range_name()));
                        assert(!vstd::utf8::valid_utf8(hs[i as int].1));
                        assert(bad_range(hs));
                    }
                    return None;
                },
            }
        }
        proof {
            assert(hs[i as int] == (name@, value@));
            assert forall|j: int| 0 <= j < pre.len() && name_is(pre[j].0, range_name()) implies vstd::utf8::valid_utf8(
                #[trigger] pre[j].1,
            ) by {
                if j < i {
                    assert(pre[j] == hs.subrange(0, i as int)[j]);
                }
            }
        }
        i = i + 1;
    }
    proof {
        assert(hs.subrange(0, hs.len() as int) =~= hs);
        lemma_last_value(hs, range_name());
    }
    let range = match range_value {
        Some(v) => match utf8_text(v.as_slice()) {
            Some(t) => parse_range_header(t.as_str()),
            None => None,
        },
        None => None,
    };
    Some((method, path, host, range))
}

proof fn lemma_last_value(hs: Seq<(Seq<u8>, Seq<u8>)>, target: Seq<u8>)
    ensures
        last_value(hs, target) matches Some(v) ==> exists|i: int|
            0 <= i < hs.len() && name_is(hs[i].0, target) && #[trigger] hs[i].1 == v,
    decreases hs.len(),
{
    if hs.len() > 0 {
        lemma_last_value(hs.drop_last(), target);
        if !name_is(hs.last().0, target) {
            if let Some(v) = last_value(hs, target) {
                let i = choose|i: int|
                    0 <= i < hs.drop_last().len() && name_is(hs.drop_last()[i].0, target) && #[trigger] hs.drop_last()[i].1
                        == v;
                assert(hs[i] == hs.drop_last()[i]);
            }
        } else {
            assert(hs[hs.len() - 1].1 == hs.last().1);
        }
    }
}

} // verus!
