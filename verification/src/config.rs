//! Reading the target configuration: validating each record and turning it
//! into a `ServiceTarget`. Bad records are fatal at startup, so every fault is
//! reported as an error instead of a target.

use vstd::prelude::*;
use vstd::string::StrSliceExecFns;
use vstd::string::StringExecFns;
use crate::models::Ipv4Address;
use crate::models::SerializedServiceTarget;
use crate::models::SerializedServiceUri;
use crate::models::ServiceTarget;
use crate::models::ServiceUri;
use crate::models::is_token_char;
use crate::models::valid_method;

verus! {

/// Why a configuration record was rejected.
#[derive(Clone, Copy, PartialEq, Eq, Structural, Debug)]
pub enum ConfigError {
    /// The `ip` field is not a dotted-quad IPv4 literal.
    InvalidIp,
    /// The probe type is none of `icmp`, `tcpprobe`, `http`, `https`.
    UnknownServiceType,
    /// A TCP or HTTP probe without a port.
    MissingPort,
    /// A method that is not an HTTP token.
    InvalidMethod,
}

/// ASCII lowercasing of one character, as the probe type keyword is matched.
pub open spec fn lower_char(c: char) -> char {
    if 'A' <= c && c <= 'Z' {
        ((c as u32 + 32) as u8) as char
    } else {
        c
    }
}

/// ASCII-case-insensitive equality of two character sequences.
pub open spec fn eq_ignore_ascii_case_spec(a: Seq<char>, b: Seq<char>) -> bool {
    a.len() == b.len() && forall|i: int|
        0 <= i < a.len() ==> lower_char(#[trigger] a[i]) == lower_char(b[i])
}

fn lower_char_exec(c: char) -> (r: char)
    ensures
        r == lower_char(c),
{
    if 'A' <= c && c <= 'Z' {
        ((c as u32 + 32) as u8) as char
    } else {
        c
    }
}

fn eq_ignore_ascii_case(s: &str, t: &str) -> (b: bool)
    ensures
        b == eq_ignore_ascii_case_spec(s@, t@),
{
    let ns = s.unicode_len();
    let nt = t.unicode_len();
    if ns != nt {
        return false;
    }
    let mut i: usize = 0;
    while i < ns
        invariant
            ns == s@.len(),
            nt == t@.len(),
            ns == nt,
            0 <= i <= ns,
            forall|j: int| 0 <= j < i ==> lower_char(#[trigger] s@[j]) == lower_char(t@[j]),
        decreases ns - i,
    {
        let a = lower_char_exec(s.get_char(i));
        let b = lower_char_exec(t.get_char(i));
        if !(a == b) {
            assert(!eq_ignore_ascii_case_spec(s@, t@)) by {
                if eq_ignore_ascii_case_spec(s@, t@) {
                    assert(lower_char(s@[i as int]) == lower_char(t@[i as int]));
                }
            }
            return false;
        }
        i += 1;
    }
    true
}

fn is_token_char_exec(c: char) -> (b: bool)
    ensures
        b == is_token_char(c),
{
    ('a' <= c && c <= 'z') || ('A' <= c && c <= 'Z') || ('0' <= c && c <= '9') || c == '!' || c
        == '#' || c == '$' || c == '%' || c == '&' || c == '\'' || c == '*' || c == '+' || c == '-'
        || c == '.' || c == '^' || c == '_' || c == '`' || c == '|' || c == '~'
}

fn is_valid_method(m: &str) -> (b: bool)
    ensures
        b == valid_method(m@),
{
    let n = m.unicode_len();
    if n == 0 {
        return false;
    }
    let mut i: usize = 0;
    while i < n
        invariant
            n == m@.len(),
            0 <= i <= n,
            forall|j: int| 0 <= j < i ==> is_token_char(#[trigger] m@[j]),
        decreases n - i,
    {
        if !is_token_char_exec(m.get_char(i)) {
            assert(!valid_method(m@)) by {
                if valid_method(m@) {
                    assert(is_token_char(m@[i as int]));
                }
            }
            return false;
        }
        i += 1;
    }
    true
}

/// The probe type keywords the configuration accepts.
pub open spec fn kw_icmp() -> Seq<char> {
    seq!['i', 'c', 'm', 'p']
}

pub open spec fn kw_tcpprobe() -> Seq<char> {
    seq!['t', 'c', 'p', 'p', 'r', 'o', 'b', 'e']
}

pub open spec fn kw_http() -> Seq<char> {
    seq!['h', 't', 't', 'p']
}

pub open spec fn kw_https() -> Seq<char> {
    seq!['h', 't', 't', 'p', 's']
}

/// The method a probe uses: the configured one, or GET.
pub open spec fn method_or_default(m: Option<String>) -> Seq<char> {
    match m {
        None => seq!['G', 'E', 'T'],
        Some(s) => s@,
    }
}

/// The route a probe uses: the configured one, with a slash put in front when
/// it lacks one, or `/` alone.
pub open spec fn normalize_route(r: Option<String>) -> Seq<char> {
    match r {
        None => seq!['/'],
        Some(s) => if s@.len() > 0 && s@[0] == '/' {
            s@
        } else {
            seq!['/'] + s@
        },
    }
}

/// Whether `u` is the HTTP-style probe with the given parameters.
pub open spec fn is_http_uri(
    u: ServiceUri,
    secure: bool,
    port: u16,
    method: Seq<char>,
    route: Seq<char>,
) -> bool {
    match u {
        ServiceUri::Http(p, m, rt) => !secure && p == port && m@ == method && rt@ == route,
        ServiceUri::HttpSecure(p, m, rt) => secure && p == port && m@ == method && rt@ == route,
        _ => false,
    }
}

/// The error a probe descriptor draws, if any.
pub open spec fn spec_uri_error(ser: SerializedServiceUri) -> Option<ConfigError> {
    let st = ser.service_type@;
    if eq_ignore_ascii_case_spec(st, kw_icmp()) {
        None
    } else if eq_ignore_ascii_case_spec(st, kw_tcpprobe()) {
        if ser.port is Some {
            None
        } else {
            Some(ConfigError::MissingPort)
        }
    } else if eq_ignore_ascii_case_spec(st, kw_http()) || eq_ignore_ascii_case_spec(
        st,
        kw_https(),
    ) {
        if ser.port is None {
            Some(ConfigError::MissingPort)
        } else if !valid_method(method_or_default(ser.method)) {
            Some(ConfigError::InvalidMethod)
        } else {
            None
        }
    } else {
        Some(ConfigError::UnknownServiceType)
    }
}

/// Whether `u` is what the descriptor `ser` describes.
pub open spec fn uri_corresponds(u: ServiceUri, ser: SerializedServiceUri) -> bool {
    let st = ser.service_type@;
    if eq_ignore_ascii_case_spec(st, kw_icmp()) {
        u == ServiceUri::Icmp
    } else if eq_ignore_ascii_case_spec(st, kw_tcpprobe()) {
        ser.port is Some && u == ServiceUri::TcpProbe(ser.port.unwrap())
    } else if eq_ignore_ascii_case_spec(st, kw_http()) || eq_ignore_ascii_case_spec(
        st,
        kw_https(),
    ) {
        ser.port is Some && valid_method(method_or_default(ser.method)) && is_http_uri(
            u,
            eq_ignore_ascii_case_spec(st, kw_https()),
            ser.port.unwrap(),
            method_or_default(ser.method),
            normalize_route(ser.route),
        )
    } else {
        false
    }
}

/// Whether `t` is some address's canonical dotted form.
pub open spec fn is_ipv4_literal(t: Seq<char>) -> bool {
    exists|ip: Ipv4Address| t == ip.dotted()
}

/// Whether `t` is what the configuration record `ser` describes.
pub open spec fn target_corresponds(t: ServiceTarget, ser: SerializedServiceTarget) -> bool {
    &&& ser.ip@ == t.target.dotted()
    &&& t.zone@ == ser.cf_zone@
    &&& t.dns@ == ser.cf_dns@
    &&& t.response_threshold_ms == ser.response_threshold_ms
    &&& uri_corresponds(t.check, ser.check)
}

/// The error a whole configuration record draws, if any: a bad address is
/// reported first, then the probe descriptor's fault.
pub open spec fn spec_target_error(ser: SerializedServiceTarget) -> Option<ConfigError> {
    if !is_ipv4_literal(ser.ip@) {
        Some(ConfigError::InvalidIp)
    } else {
        spec_uri_error(ser.check)
    }
}

fn normalize_route_exec(route: &String) -> (r: String)
    ensures
        r@ == normalize_route(Some(*route)),
{
    proof {
        reveal_strlit("/");
    }
    let empty = route.as_str().is_empty();
    if !empty && route.as_str().get_char(0) == '/' {
        route.clone()
    } else {
        let mut r: String = "/".to_owned();
        r.append(route.as_str());
        proof {
            assert(r@ =~= seq!['/'] + route@);
        }
        r
    }
}

/// The configuration reader.
pub struct Config {}

impl Config {
    /// Reads one probe descriptor. The probe type is matched without regard
    /// to ASCII case; TCP and HTTP probes must carry a port; the method must
    /// be an HTTP token and defaults to GET; the route defaults to `/` and is
    /// given a leading slash when it lacks one.
    pub fn parse_service_uri(ser: &SerializedServiceUri) -> (r: Result<ServiceUri, ConfigError>)
        ensures
            match r {
                Ok(u) => spec_uri_error(*ser) is None && uri_corresponds(u, *ser) && u.wf(),
                Err(e) => spec_uri_error(*ser) == Some(e),
            },
    {
        proof {
            reveal_strlit("icmp");
            reveal_strlit("tcpprobe");
            reveal_strlit("http");
            reveal_strlit("https");
            reveal_strlit("GET");
            assert("icmp"@ =~= kw_icmp());
            assert("tcpprobe"@ =~= kw_tcpprobe());
            assert("http"@ =~= kw_http());
            assert("https"@ =~= kw_https());
        }
        let st = ser.service_type.as_str();
        if eq_ignore_ascii_case(st, "icmp") {
            Ok(ServiceUri::Icmp)
        } else if eq_ignore_ascii_case(st, "tcpprobe") {
            match ser.port {
                Some(p) => Ok(ServiceUri::TcpProbe(p)),
                None => Err(ConfigError::MissingPort),
            }
        } else if eq_ignore_ascii_case(st, "http") || eq_ignore_ascii_case(st, "https") {
            let secure = eq_ignore_ascii_case(st, "https");
            let port = match ser.port {
                Some(p) => p,
                None => {
                    return Err(ConfigError::MissingPort);
                },
            };
            let method: String = match &ser.method {
                Some(m) => m.clone(),
                None => {
                    let g: String = "GET".to_owned();
                    proof {
                        assert(g@ =~= method_or_default(ser.method));
                    }
                    g
                },
            };
            if !is_valid_method(method.as_str()) {
                return Err(ConfigError::InvalidMethod);
            }
            let route: String = match &ser.route {
                Some(rt) => normalize_route_exec(rt),
                None => {
                    proof {
                        reveal_strlit("/");
                        assert("/"@ =~= normalize_route(ser.route));
                    }
                    "/".to_owned()
                },
            };
            if secure {
                Ok(ServiceUri::HttpSecure(port, method, route))
            } else {
                Ok(ServiceUri::Http(port, method, route))
            }
        } else {
            Err(ConfigError::UnknownServiceType)
        }
    }

    /// Reads the whole target list. All records are converted in order; the
    /// first bad record's fault is the error, and any bad record is fatal.
    pub fn read_service_targets(parsed: &Vec<SerializedServiceTarget>) -> (r: Result<
        Vec<ServiceTarget>,
        ConfigError,
    >)
        ensures
            match r {
                Ok(ts) => ts@.len() == parsed@.len() && (forall|i: int|
                    0 <= i < parsed@.len() ==> spec_target_error(#[trigger] parsed@[i]) is None)
                    && (forall|i: int|
                    0 <= i < parsed@.len() ==> target_corresponds(
                        #[trigger] ts@[i],
                        parsed@[i],
                    )) && (forall|i: int| 0 <= i < parsed@.len() ==> (#[trigger] ts@[i]).wf()),
                Err(e) => exists|i: int|
                    0 <= i < parsed@.len() && spec_target_error(#[trigger] parsed@[i]) == Some(e)
                        && (forall|j: int|
                        0 <= j < i ==> spec_target_error(#[trigger] parsed@[j]) is None),
            },
    {
        let mut ts: Vec<ServiceTarget> = Vec::new();
        let mut i: usize = 0;
        while i < parsed.len()
            invariant
                0 <= i <= parsed@.len(),
                ts@.len() == i,
                forall|j: int| 0 <= j < i ==> spec_target_error(#[trigger] parsed@[j]) is None,
                forall|j: int| 0 <= j < i ==> target_corresponds(#[trigger] ts@[j], parsed@[j]),
                forall|j: int| 0 <= j < i ==> (#[trigger] ts@[j]).wf(),
            decreases parsed@.len() - i,
        {
            let ser = &parsed[i];
            let ip = match Ipv4Address::parse(ser.ip.as_str()) {
                Some(ip) => ip,
                None => {
                    proof {
                        assert(!is_ipv4_literal(ser.ip@)) by {
                            if is_ipv4_literal(ser.ip@) {
                                let w = choose|w: Ipv4Address| ser.ip@ == w.dotted();
                                assert(ser.ip@ != w.dotted());
                            }
                        }
                    }
                    return Err(ConfigError::InvalidIp);
                },
            };
            proof {
                assert(is_ipv4_literal(ser.ip@)) by {
                    assert(ser.ip@ == ip.dotted());
                }
            }
            let check = match Config::parse_service_uri(&ser.check) {
                Ok(u) => u,
                Err(e) => {
                    return Err(e);
                },
            };
            let t = ServiceTarget {
                target: ip,
                check,
                zone: ser.cf_zone.clone(),
                dns: ser.cf_dns.clone(),
                response_threshold_ms: ser.response_threshold_ms,
            };
            ts.push(t);
            i += 1;
        }
        Ok(ts)
    }
}

} // verus!
