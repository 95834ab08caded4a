//! Data model: monitored targets, their probe descriptors, and the plain
//! configuration records they are read from.

use vstd::prelude::*;
use vstd::string::StrSliceExecFns;
use vstd::string::StringExecFns;
use crate::decimal::dec_digits;
use crate::decimal::digit_run;
use crate::decimal::digits_value;
use crate::decimal::is_digit_char;
use crate::decimal::lemma_dec_digits_len;
use crate::decimal::lemma_dec_digits_value;
use crate::decimal::lemma_digit_run_bounds;
use crate::decimal::lemma_digit_run_is;
use crate::decimal::lemma_digits_value_small;
use crate::decimal::lemma_digits_value_unique;
use crate::decimal::u64_to_decimal;

verus! {

/// An IPv4 address, kept as its four octets.
#[derive(Clone, Copy, PartialEq, Eq, Structural, Debug, Hash)]
pub struct Ipv4Address {
    pub a: u8,
    pub b: u8,
    pub c: u8,
    pub d: u8,
}

impl Ipv4Address {
    pub fn new(a: u8, b: u8, c: u8, d: u8) -> (r: Ipv4Address)
        ensures
            r == (Ipv4Address { a, b, c, d }),
    {
        Ipv4Address { a, b, c, d }
    }

    /// The canonical dotted-quad form: four decimal octets without leading
    /// zeros, separated by dots.
    pub open spec fn dotted(self) -> Seq<char> {
        dec_digits(self.a as nat) + seq!['.'] + dec_digits(self.b as nat) + seq!['.']
            + dec_digits(self.c as nat) + seq!['.'] + dec_digits(self.d as nat)
    }

    /// Renders the address in its canonical dotted-quad form.
    pub fn to_dotted(self) -> (r: String)
        ensures
            r@ == self.dotted(),
    {
        proof {
            reveal_strlit(".");
        }
        let mut r = u64_to_decimal(self.a as u64);
        r.append(".");
        r.append(u64_to_decimal(self.b as u64).as_str());
        r.append(".");
        r.append(u64_to_decimal(self.c as u64).as_str());
        r.append(".");
        r.append(u64_to_decimal(self.d as u64).as_str());
        proof {
            assert(r@ =~= self.dotted());
        }
        r
    }

    /// Reads an address from its canonical dotted-quad text; anything else —
    /// other notations, leading zeros, octets over 255, trailing text — is
    /// rejected.
    pub fn parse(s: &str) -> (r: Option<Ipv4Address>)
        ensures
            match r {
                Some(ip) => s@ == ip.dotted(),
                None => forall|ip: Ipv4Address| s@ != ip.dotted(),
            },
    {
        let n = s.unicode_len();
        let r = parse_ipv4_impl(s, n);
        proof {
            match r {
                Some(ip) => {
                    lemma_parse_sound(s@, ip);
                },
                None => {
                    assert forall|ip: Ipv4Address| s@ != ip.dotted() by {
                        if s@ == ip.dotted() {
                            lemma_parse_dotted(ip);
                        }
                    }
                },
            }
        }
        r
    }
}

/// What reading an octet at position `start` of `t` yields: the value and the
/// position after its digits. The digit run must be one to three digits
/// without a leading zero, reading at most 255.
pub open spec fn spec_parse_octet(t: Seq<char>, start: int) -> Option<(u8, int)>
    recommends
        0 <= start <= t.len(),
{
    let end = digit_run(t, start);
    let run = t.subrange(start, end);
    if end == start {
        None
    } else if run[0] == '0' && end > start + 1 {
        None
    } else if end - start > 3 {
        None
    } else if digits_value(run) > 255 {
        None
    } else {
        Some((digits_value(run) as u8, end))
    }
}

/// What reading `t` as a dotted quad yields: four octets separated by dots,
/// nothing before and nothing after.
pub open spec fn spec_parse_ipv4(t: Seq<char>) -> Option<Ipv4Address> {
    match spec_parse_octet(t, 0) {
        None => None,
        Some((a, p1)) => if !(p1 < t.len() && t[p1] == '.') {
            None
        } else {
            match spec_parse_octet(t, p1 + 1) {
                None => None,
                Some((b, p2)) => if !(p2 < t.len() && t[p2] == '.') {
                    None
                } else {
                    match spec_parse_octet(t, p2 + 1) {
                        None => None,
                        Some((c, p3)) => if !(p3 < t.len() && t[p3] == '.') {
                            None
                        } else {
                            match spec_parse_octet(t, p3 + 1) {
                                None => None,
                                Some((d, p4)) => if p4 == t.len() {
                                    Some(Ipv4Address { a, b, c, d })
                                } else {
                                    None
                                },
                            }
                        },
                    }
                },
            }
        },
    }
}

/// An octet written in decimal and followed by a non-digit (or the end) reads
/// back as itself.
proof fn lemma_octet_at(t: Seq<char>, p: int, v: u8)
    requires
        0 <= p,
        p + dec_digits(v as nat).len() <= t.len(),
        t.subrange(p, p + dec_digits(v as nat).len() as int) == dec_digits(v as nat),
        p + dec_digits(v as nat).len() == t.len() || !is_digit_char(
            t[p + dec_digits(v as nat).len()],
        ),
    ensures
        spec_parse_octet(t, p) == Some((v, p + dec_digits(v as nat).len() as int)),
{
    let w = dec_digits(v as nat);
    let end = p + w.len() as int;
    lemma_dec_digits_value(v as nat);
    lemma_dec_digits_len(v as nat);
    assert forall|k: int| p <= k < end implies is_digit_char(#[trigger] t[k]) by {
        assert(t.subrange(p, end)[k - p] == t[k]);
        assert(w[k - p] == t[k]);
    }
    lemma_digit_run_is(t, p, end);
    assert(t.subrange(p, end)[0] == w[0]);
}

/// A successful octet read pins the text: it is the octet's decimal form, and
/// what follows is not a digit.
proof fn lemma_octet_sound(t: Seq<char>, p: int, v: u8, end: int)
    requires
        0 <= p <= t.len(),
        spec_parse_octet(t, p) == Some((v, end)),
    ensures
        p < end <= t.len(),
        t.subrange(p, end) == dec_digits(v as nat),
        end == t.len() || !is_digit_char(t[end]),
{
    lemma_digit_run_bounds(t, p);
    let run = t.subrange(p, end);
    assert forall|i: int| 0 <= i < run.len() implies is_digit_char(#[trigger] run[i]) by {
        assert(run[i] == t[p + i]);
    }
    lemma_digits_value_unique(run);
}

/// A dotted-quad literal reads back as exactly its address.
pub proof fn lemma_parse_dotted(ip: Ipv4Address)
    ensures
        spec_parse_ipv4(ip.dotted()) == Some(ip),
{
    let t = ip.dotted();
    let wa = dec_digits(ip.a as nat);
    let wb = dec_digits(ip.b as nat);
    let wc = dec_digits(ip.c as nat);
    let wd = dec_digits(ip.d as nat);
    lemma_dec_digits_len(ip.a as nat);
    lemma_dec_digits_len(ip.b as nat);
    lemma_dec_digits_len(ip.c as nat);
    lemma_dec_digits_len(ip.d as nat);
    let p1 = wa.len() as int;
    let p2 = p1 + 1 + wb.len() as int;
    let p3 = p2 + 1 + wc.len() as int;
    let p4 = p3 + 1 + wd.len() as int;
    assert(t.len() == p4);
    assert(t.subrange(0, p1) =~= wa);
    assert(t[p1] == '.');
    assert(t.subrange(p1 + 1, p2) =~= wb);
    assert(t[p2] == '.');
    assert(t.subrange(p2 + 1, p3) =~= wc);
    assert(t[p3] == '.');
    assert(t.subrange(p3 + 1, p4) =~= wd);
    lemma_octet_at(t, 0, ip.a);
    lemma_octet_at(t, p1 + 1, ip.b);
    lemma_octet_at(t, p2 + 1, ip.c);
    lemma_octet_at(t, p3 + 1, ip.d);
}

/// A successful read pins the whole text: it is the address's dotted form.
#[verifier::rlimit(50)]
pub proof fn lemma_parse_sound(t: Seq<char>, ip: Ipv4Address)
    requires
        spec_parse_ipv4(t) == Some(ip),
    ensures
        t == ip.dotted(),
{
    let r1 = spec_parse_octet(t, 0);
    let a = r1.unwrap().0;
    let p1 = r1.unwrap().1;
    lemma_octet_sound(t, 0, a, p1);
    let r2 = spec_parse_octet(t, p1 + 1);
    let b = r2.unwrap().0;
    let p2 = r2.unwrap().1;
    lemma_octet_sound(t, p1 + 1, b, p2);
    let r3 = spec_parse_octet(t, p2 + 1);
    let c = r3.unwrap().0;
    let p3 = r3.unwrap().1;
    lemma_octet_sound(t, p2 + 1, c, p3);
    let r4 = spec_parse_octet(t, p3 + 1);
    let d = r4.unwrap().0;
    let p4 = r4.unwrap().1;
    lemma_octet_sound(t, p3 + 1, d, p4);
    assert(ip == Ipv4Address { a, b, c, d });
    assert(t =~= t.subrange(0, p1) + seq![t[p1]] + t.subrange(p1 + 1, p2) + seq![t[p2]]
        + t.subrange(p2 + 1, p3) + seq![t[p3]] + t.subrange(p3 + 1, p4));
    assert(t == ip.dotted());
}

fn digit_run_exec(s: &str, start: usize, n: usize) -> (j: usize)
    requires
        n == s@.len(),
        start <= n,
    ensures
        start <= j <= n,
        j == digit_run(s@, start as int),
{
    let mut j = start;
    while j < n
        invariant_except_break
            start <= j <= n,
            n == s@.len(),
            forall|k: int| start <= k < j ==> is_digit_char(#[trigger] s@[k]),
        ensures
            start <= j <= n,
            n == s@.len(),
            forall|k: int| start <= k < j ==> is_digit_char(#[trigger] s@[k]),
            j == n || !is_digit_char(s@[j as int]),
        decreases n - j,
    {
        let ch = s.get_char(j);
        if !('0' <= ch && ch <= '9') {
            break;
        }
        j += 1;
    }
    proof {
        lemma_digit_run_is(s@, start as int, j as int);
    }
    j
}

fn parse_octet(s: &str, start: usize, n: usize) -> (r: Option<(u8, usize)>)
    requires
        n == s@.len(),
        start <= n,
    ensures
        match r {
            Some(p) => start < p.1 <= n && spec_parse_octet(s@, start as int) == Some(
                (p.0, p.1 as int),
            ),
            None => spec_parse_octet(s@, start as int) is None,
        },
{
    let end = digit_run_exec(s, start, n);
    proof {
        lemma_digit_run_bounds(s@, start as int);
    }
    if end == start {
        return None;
    }
    let ghost run = s@.subrange(start as int, end as int);
    proof {
        assert forall|i: int| 0 <= i < run.len() implies is_digit_char(#[trigger] run[i]) by {
            assert(run[i] == s@[start + i]);
        }
    }
    if s.get_char(start) == '0' && end > start + 1 {
        return None;
    }
    if end - start > 3 {
        return None;
    }
    let mut v: u32 = 0;
    let mut k = start;
    while k < end
        invariant
            start <= k <= end <= n,
            n == s@.len(),
            end == digit_run(s@, start as int),
            end - start <= 3,
            forall|i: int| start <= i < end ==> is_digit_char(#[trigger] s@[i]),
            v == digits_value(s@.subrange(start as int, k as int)),
            v <= 999,
        decreases end - k,
    {
        proof {
            lemma_digits_value_small(s@.subrange(start as int, k as int));
            assert(s@.subrange(start as int, k + 1).drop_last() =~= s@.subrange(
                start as int,
                k as int,
            ));
            assert(s@.subrange(start as int, k + 1).last() == s@[k as int]);
        }
        let ch = s.get_char(k);
        v = v * 10 + (ch as u32 - 48);
        k += 1;
    }
    if v > 255 {
        return None;
    }
    Some((v as u8, end))
}

fn parse_ipv4_impl(s: &str, n: usize) -> (r: Option<Ipv4Address>)
    requires
        n == s@.len(),
    ensures
        r == spec_parse_ipv4(s@),
{
    let (a, p1) = match parse_octet(s, 0, n) {
        Some(p) => p,
        None => {
            return None;
        },
    };
    if p1 == n {
        return None;
    }
    if !(s.get_char(p1) == '.') {
        return None;
    }
    let (b, p2) = match parse_octet(s, p1 + 1, n) {
        Some(p) => p,
        None => {
            return None;
        },
    };
    if p2 == n {
        return None;
    }
    if !(s.get_char(p2) == '.') {
        return None;
    }
    let (c, p3) = match parse_octet(s, p2 + 1, n) {
        Some(p) => p,
        None => {
            return None;
        },
    };
    if p3 == n {
        return None;
    }
    if !(s.get_char(p3) == '.') {
        return None;
    }
    let (d, p4) = match parse_octet(s, p3 + 1, n) {
        Some(p) => p,
        None => {
            return None;
        },
    };
    if p4 == n {
        Some(Ipv4Address { a, b, c, d })
    } else {
        None
    }
}

/// How one target is probed.
#[derive(Debug, PartialEq, Eq)]
pub enum ServiceUri {
    /// A single ICMP echo request.
    Icmp,
    /// A TCP connection attempt to the given port.
    TcpProbe(u16),
    /// A plaintext HTTP request: port, method, route.
    Http(u16, String, String),
    /// An HTTP request over TLS: port, method, route.
    HttpSecure(u16, String, String),
}

/// The characters an HTTP method name may consist of (the token characters of
/// the HTTP grammar).
pub open spec fn is_token_char(c: char) -> bool {
    ('a' <= c && c <= 'z') || ('A' <= c && c <= 'Z') || ('0' <= c && c <= '9') || c == '!' || c
        == '#' || c == '$' || c == '%' || c == '&' || c == '\'' || c == '*' || c == '+' || c == '-'
        || c == '.' || c == '^' || c == '_' || c == '`' || c == '|' || c == '~'
}

/// A well-formed HTTP method name: a non-empty token.
pub open spec fn valid_method(m: Seq<char>) -> bool {
    m.len() > 0 && (forall|i: int| 0 <= i < m.len() ==> is_token_char(#[trigger] m[i]))
}

impl Clone for ServiceUri {
    fn clone(&self) -> (res: ServiceUri)
        ensures
            res == *self,
    {
        match self {
            ServiceUri::Icmp => ServiceUri::Icmp,
            ServiceUri::TcpProbe(port) => ServiceUri::TcpProbe(*port),
            ServiceUri::Http(port, method, route) => ServiceUri::Http(
                *port,
                method.clone(),
                route.clone(),
            ),
            ServiceUri::HttpSecure(port, method, route) => ServiceUri::HttpSecure(
                *port,
                method.clone(),
                route.clone(),
            ),
        }
    }
}

impl ServiceUri {
    /// Well-formedness: HTTP-style probes carry a valid method and a route
    /// that starts with a slash.
    pub open spec fn wf(self) -> bool {
        match self {
            ServiceUri::Icmp => true,
            ServiceUri::TcpProbe(_) => true,
            ServiceUri::Http(_, method, route) => valid_method(method@) && route@.len() > 0
                && route@[0] == '/',
            ServiceUri::HttpSecure(_, method, route) => valid_method(method@) && route@.len() > 0
                && route@[0] == '/',
        }
    }
}

/// One monitored endpoint: its address, how to probe it, and the DNS record it
/// is advertised under.
#[derive(Debug, PartialEq, Eq)]
pub struct ServiceTarget {
    pub target: Ipv4Address,
    pub check: ServiceUri,
    pub zone: String,
    pub dns: String,
    pub response_threshold_ms: Option<u32>,
}

impl Clone for ServiceTarget {
    fn clone(&self) -> (res: ServiceTarget)
        ensures
            res == *self,
    {
        ServiceTarget {
            target: self.target,
            check: self.check.clone(),
            zone: self.zone.clone(),
            dns: self.dns.clone(),
            response_threshold_ms: self.response_threshold_ms,
        }
    }
}

impl ServiceTarget {
    pub open spec fn wf(self) -> bool {
        self.check.wf()
    }
}

/// A target exactly as it appears in the configuration input, before
/// validation.
#[derive(Clone, Debug)]
pub struct SerializedServiceTarget {
    pub ip: String,
    pub cf_zone: String,
    pub cf_dns: String,
    pub check: SerializedServiceUri,
    pub response_threshold_ms: Option<u32>,
}

/// A probe descriptor exactly as it appears in the configuration input.
#[derive(Clone, Debug)]
pub struct SerializedServiceUri {
    pub service_type: String,
    pub port: Option<u16>,
    pub method: Option<String>,
    pub route: Option<String>,
}

} // verus!
