//! Whether to reach the server through a SOCKS proxy, and which one.
use vstd::prelude::*;
use vstd::string::StrSliceExecFns;

verus! {

/// The parts of a proxy URI that decide how to connect through it.
pub struct ProxyUri {
    pub scheme: Option<String>,
    pub host: Option<String>,
    pub port: Option<u16>,
}

#[derive(Clone, Copy, Debug, PartialEq, Eq, Structural)]
pub enum SocksVersion {
    V4,
    V5,
}

pub open spec fn starts_with(s: Seq<char>, prefix: Seq<char>) -> bool {
    s.len() >= prefix.len() && s.subrange(0, prefix.len() as int) == prefix
}

/// `socks4...` is version 4; any other `socks...` is version 5.
pub open spec fn socks_version_of(scheme: Seq<char>) -> Option<SocksVersion> {
    if starts_with(scheme, "socks4"@) {
        Some(SocksVersion::V4)
    } else if starts_with(scheme, "socks"@) {
        Some(SocksVersion::V5)
    } else {
        None
    }
}

/// The host, port and version of a SOCKS proxy URI; `None` when there is no
/// proxy, it is not a SOCKS one, or it lacks a host or a port.
pub open spec fn socks_target(proxy: Option<ProxyUri>) -> Option<(Seq<char>, u16, SocksVersion)> {
    match proxy {
        Some(ProxyUri { scheme: Some(s), host: Some(h), port: Some(p) }) => match socks_version_of(
            s@,
        ) {
            Some(v) => Some((h@, p, v)),
            None => None,
        },
        _ => None,
    }
}

fn starts_with_chars(s: &str, prefix: &str) -> (r: bool)
    ensures
        r == starts_with(s@, prefix@),
{
    let n = s.unicode_len();
    let k = prefix.unicode_len();
    if k > n {
        return false;
    }
    let mut i: usize = 0;
    while i < k
        invariant
            n == s@.len(),
            k == prefix@.len(),
            k <= n,
            i <= k,
            forall|j: int| 0 <= j < i ==> s@[j] == prefix@[j],
        decreases k - i,
    {
        if s.get_char(i) != prefix.get_char(i) {
            assert(s@.subrange(0, k as int)[i as int] != prefix@[i as int]);
            return false;
        }
        i += 1;
    }
    assert(s@.subrange(0, k as int) =~= prefix@);
    true
}

/// The host and port of the SOCKS proxy to connect through, with its version.
pub fn parse_socks_proxy(proxy: Option<&ProxyUri>) -> (r: Option<((String, u16), SocksVersion)>)
    ensures
        match socks_target(
            match proxy {
                Some(p) => Some(*p),
                None => None,
            },
        ) {
            Some((h, p, v)) => r matches Some(((host, port), version)) && host@ == h && port == p
                && version == v,
            None => r is None,
        },
{
    let proxy_uri = match proxy {
        Some(p) => p,
        None => return None,
    };
    let scheme = match &proxy_uri.scheme {
        Some(s) => s.as_str(),
        None => return None,
    };
    let socks_version = if starts_with_chars(scheme, "socks4") {
        SocksVersion::V4
    } else if starts_with_chars(scheme, "socks") {
        SocksVersion::V5
    } else {
        return None;
    };
    match (&proxy_uri.host, proxy_uri.port) {
        (Some(host), Some(port)) => Some(((host.clone(), port), socks_version)),
        _ => None,
    }
}

} // verus!
