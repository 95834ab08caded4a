//! Probe decision logic and scheduling arithmetic: everything about a probe
//! round that is not network I/O.

use vstd::prelude::*;
use vstd::string::StrSliceExecFns;
use vstd::string::StringExecFns;
use crate::decimal::dec_digits;
use crate::decimal::u64_to_decimal;
use crate::models::Ipv4Address;

verus! {

/// The probe deadline used when a target gives no response threshold.
pub const DEFAULT_TIMEOUT_MS: u64 = 1000;

/// A target's probe deadline: its own threshold if given, else the default.
pub fn probe_timeout_ms(response_threshold_ms: Option<u32>) -> (r: u64)
    ensures
        r == match response_threshold_ms {
            Some(t) => t as u64,
            None => DEFAULT_TIMEOUT_MS,
        },
{
    match response_threshold_ms {
        Some(t) => t as u64,
        None => DEFAULT_TIMEOUT_MS,
    }
}

/// Whether an HTTP response status marks the target healthy: exactly the
/// success range 200-299.
pub fn is_success_status(status: u16) -> (b: bool)
    ensures
        b == (200 <= status && status < 300),
{
    200 <= status && status < 300
}

/// A TCP probe counts as healthy when the connect attempt succeeded and the
/// elapsed wall time, measured beside the connect call's own timeout, stays
/// strictly below the deadline.
pub fn tcp_probe_healthy(connected: bool, elapsed_ms: u128, timeout_ms: u128) -> (b: bool)
    ensures
        b == (connected && elapsed_ms < timeout_ms),
{
    connected && elapsed_ms < timeout_ms
}

/// An ICMP probe counts as healthy when at least one echo reply arrived.
pub fn icmp_probe_healthy(replies: usize) -> (b: bool)
    ensures
        b == (replies > 0),
{
    replies > 0
}

/// How long the scheduler sleeps after a round: the rest of the interval, or
/// nothing when the round ran over it — never negative, and never a skipped
/// round.
pub fn sleep_duration_ms(interval_ms: u64, elapsed_ms: u64) -> (r: u64)
    ensures
        r == if elapsed_ms < interval_ms {
            (interval_ms - elapsed_ms) as u64
        } else {
            0u64
        },
{
    if elapsed_ms < interval_ms {
        interval_ms - elapsed_ms
    } else {
        0
    }
}

/// The probe URL of an HTTP-style check:
/// `{scheme}://{address}:{port}{route}`, with a slash put before a route that
/// lacks one.
pub open spec fn http_uri(secure: bool, addr: Ipv4Address, port: u16, route: Seq<char>) -> Seq<
    char,
> {
    let scheme = if secure {
        seq!['h', 't', 't', 'p', 's', ':', '/', '/']
    } else {
        seq!['h', 't', 't', 'p', ':', '/', '/']
    };
    let path = if route.len() > 0 && route[0] == '/' {
        route
    } else {
        seq!['/'] + route
    };
    scheme + addr.dotted() + seq![':'] + dec_digits(port as nat) + path
}

/// Builds the probe URL for an HTTP or HTTPS check.
pub fn build_http_uri(secure: bool, addr: Ipv4Address, port: u16, route: &str) -> (r: String)
    ensures
        r@ == http_uri(secure, addr, port, route@),
{
    proof {
        reveal_strlit("https://");
        reveal_strlit("http://");
        reveal_strlit(":");
        reveal_strlit("/");
    }
    let mut r: String = if secure {
        "https://".to_owned()
    } else {
        "http://".to_owned()
    };
    r.append(addr.to_dotted().as_str());
    r.append(":");
    r.append(u64_to_decimal(port as u64).as_str());
    let needs_slash = if route.is_empty() {
        true
    } else {
        !(route.get_char(0) == '/')
    };
    if needs_slash {
        r.append("/");
    }
    r.append(route);
    proof {
        assert(r@ =~= http_uri(secure, addr, port, route@));
    }
    r
}

} // verus!
