use zed_markdown::socks::{parse_socks_proxy, ProxyUri, SocksVersion};

fn uri(scheme: Option<&str>, host: Option<&str>, port: Option<u16>) -> ProxyUri {
    ProxyUri {
        scheme: scheme.map(str::to_string),
        host: host.map(str::to_string),
        port,
    }
}

#[test]
fn socks_versions_by_scheme() {
    assert_eq!(
        parse_socks_proxy(Some(&uri(Some("socks4a"), Some("proxy"), Some(1080)))),
        Some((("proxy".to_string(), 1080), SocksVersion::V4))
    );
    assert_eq!(
        parse_socks_proxy(Some(&uri(Some("socks5h"), Some("proxy"), Some(9050)))),
        Some((("proxy".to_string(), 9050), SocksVersion::V5))
    );
    assert_eq!(
        parse_socks_proxy(Some(&uri(Some("socks"), Some("p"), Some(1)))),
        Some((("p".to_string(), 1), SocksVersion::V5))
    );
}

#[test]
fn not_a_socks_proxy() {
    assert_eq!(parse_socks_proxy(None), None);
    assert_eq!(
        parse_socks_proxy(Some(&uri(Some("http"), Some("proxy"), Some(80)))),
        None
    );
    assert_eq!(parse_socks_proxy(Some(&uri(None, Some("proxy"), Some(80)))), None);
    assert_eq!(
        parse_socks_proxy(Some(&uri(Some("socks5"), None, Some(80)))),
        None
    );
    assert_eq!(
        parse_socks_proxy(Some(&uri(Some("socks5"), Some("proxy"), None))),
        None
    );
}
