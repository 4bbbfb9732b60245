use mio_ws::{first_ipv4, HostInfo, ResolvedAddr, WsProtocol};

/// Answers with the host itself where it is a dotted numeric address, and
/// with nothing otherwise; no name service is asked.
fn numeric_resolver(domain: &str, _port: u16) -> Option<String> {
    if !domain.is_empty() && domain.chars().all(|c| c.is_ascii_digit() || c == '.') {
        Some(domain.to_string())
    } else {
        None
    }
}

fn parse(url: &str) -> Option<HostInfo> {
    HostInfo::parse_url(url, numeric_resolver)
}

#[test]
fn test_host_info_parsing() {
    let url = "wss://example.com:8080/path/to/resource";
    let host_info = parse(url).unwrap();
    println!("url: {:?}:\n{:#?}", url, host_info);

    let url = "wss://fstream.binance.com/ws/btcusdt@trade";
    let host_info = parse(url).unwrap();
    println!("url: {:?}:\n{:#?}", url, host_info);

    let url = "ws://127.0.0.1:8080/some/path";
    let host_info = parse(url).unwrap();
    println!("url: {:?}:\n{:#?}", url, host_info);

    let url = "ws://127.0.0.1:8080";
    let host_info = parse(url).unwrap();
    println!("url: {:?}:\n{:#?}", url, host_info);

    let url = "ws://127.0.0.1";
    let host_info = parse(url).unwrap();
    println!("url: {:?}:\n{:#?}", url, host_info);
}

#[test]
fn parse_url_fields_of_the_examples() {
    let h = parse("wss://example.com:8080/path/to/resource").unwrap();
    assert_eq!(h.protocol, WsProtocol::Wss);
    assert_eq!(h.domain, "example.com");
    assert_eq!(h.port, 8080);
    assert_eq!(h.path, "/path/to/resource");
    assert_eq!(h.ip, "parse error");

    let h = parse("wss://fstream.binance.com/ws/btcusdt@trade").unwrap();
    assert_eq!(h.protocol, WsProtocol::Wss);
    assert_eq!(h.domain, "fstream.binance.com");
    assert_eq!(h.port, 443);
    assert_eq!(h.path, "/ws/btcusdt@trade");

    let h = parse("ws://127.0.0.1:8080/some/path").unwrap();
    assert_eq!(h.protocol, WsProtocol::Ws);
    assert_eq!(h.domain, "127.0.0.1");
    assert_eq!(h.ip, "127.0.0.1");
    assert_eq!(h.port, 8080);
    assert_eq!(h.path, "/some/path");

    let h = parse("ws://127.0.0.1:8080").unwrap();
    assert_eq!(h.port, 8080);
    assert_eq!(h.path, "/");

    let h = parse("ws://127.0.0.1").unwrap();
    assert_eq!(h.domain, "127.0.0.1");
    assert_eq!(h.port, 80);
    assert_eq!(h.path, "/");
}

#[test]
fn parse_url_refuses_other_schemes() {
    assert!(parse("http://example.com/").is_none());
    assert!(parse("").is_none());
    assert!(parse("ws:/example.com").is_none());
    assert!(parse("WS://example.com").is_none());
}

#[test]
fn parse_url_skips_repeated_scheme_prefixes() {
    let h = parse("wss://wss://wss://host:1/p").unwrap();
    assert_eq!(h.protocol, WsProtocol::Wss);
    assert_eq!(h.domain, "host");
    assert_eq!(h.port, 1);
    assert_eq!(h.path, "/p");

    // Only the scheme's own prefix repeats are skipped.
    let h = parse("wss://ws://host").unwrap();
    assert_eq!(h.domain, "ws");
    assert_eq!(h.port, 443);
    assert_eq!(h.path, "//host");
}

#[test]
fn parse_url_port_edge_cases() {
    assert_eq!(parse("ws://h:+80/").unwrap().port, 80);
    assert_eq!(parse("ws://h:+81/").unwrap().port, 81);
    assert_eq!(parse("wss://h:abc/").unwrap().port, 443);
    assert_eq!(parse("ws://h:65535").unwrap().port, 65535);
    assert_eq!(parse("ws://h:65536").unwrap().port, 80);
    assert_eq!(parse("ws://h:99999999999999999999").unwrap().port, 80);
    assert_eq!(parse("ws://h:").unwrap().port, 80);
    assert_eq!(parse("ws://h:1:2").unwrap().port, 1);
    assert_eq!(parse("ws://h:-1").unwrap().port, 80);
    assert_eq!(parse("ws://h:+").unwrap().port, 80);
    assert_eq!(parse("ws://h:007").unwrap().port, 7);
    assert_eq!(parse("ws://h:0").unwrap().port, 0);
}

#[test]
fn parse_url_port_agrees_with_std_parse() {
    let texts = [
        "0", "1", "80", "443", "8080", "65535", "65536", "70000", "+5", "++5", "-5", "+", "",
        "12a", "a12", " 1", "1 ", "٣", "0000000000000000000001", "4294967296", "6553", "65530",
    ];
    for t in texts.iter() {
        let url = format!("ws://host:{}/x", t);
        let expected = t.parse::<u16>().unwrap_or(80);
        assert_eq!(parse(&url).unwrap().port, expected, "port text {:?}", t);
    }
}

#[test]
fn parse_url_paths_and_hosts() {
    let h = parse("ws://host/a/b/c?q=1#f").unwrap();
    assert_eq!(h.domain, "host");
    assert_eq!(h.path, "/a/b/c?q=1#f");

    let h = parse("ws://host:9/").unwrap();
    assert_eq!(h.path, "/");

    let h = parse("ws://").unwrap();
    assert_eq!(h.domain, "");
    assert_eq!(h.port, 80);
    assert_eq!(h.path, "/");

    let h = parse("ws:///only/path").unwrap();
    assert_eq!(h.domain, "");
    assert_eq!(h.path, "/only/path");

    let h = parse("wss://bücher.example:8443/grüße").unwrap();
    assert_eq!(h.domain, "bücher.example");
    assert_eq!(h.port, 8443);
    assert_eq!(h.path, "/grüße");
}

#[test]
fn parse_url_hands_host_and_port_to_the_resolver() {
    let h = HostInfo::parse_url("wss://example.com:8443/x", |d: &str, p: u16| {
        Some(format!("{}@{}", d, p))
    })
    .unwrap();
    assert_eq!(h.ip, "example.com@8443");

    let h = HostInfo::parse_url("ws://example.com/x", |_d: &str, _p: u16| None).unwrap();
    assert_eq!(h.ip, "parse error");
}

#[test]
fn first_ipv4_picks_the_first_ipv4_address() {
    let addr = |v4: bool, ip: &str| ResolvedAddr { is_ipv4: v4, ip: ip.to_string() };
    let candidates = vec![addr(false, "::1"), addr(true, "10.0.0.1"), addr(true, "10.0.0.2")];
    assert_eq!(first_ipv4(&candidates), Some("10.0.0.1".to_string()));
    assert_eq!(first_ipv4(&vec![addr(false, "::1")]), None);
    assert_eq!(first_ipv4(&Vec::new()), None);
}

#[test]
fn composed_urls_read_back() {
    for scheme in ["ws://", "wss://"] {
        for host in ["", "example.com", "ws", "wss", "bücher"] {
            for port in [0u16, 7, 80, 443, 8080, 65535] {
                for path in ["", "a/b", ":x/:y", "ws://z"] {
                    let url = format!("{}{}:{}/{}", scheme, host, port, path);
                    let h = parse(&url).unwrap();
                    assert_eq!(h.protocol == WsProtocol::Wss, scheme == "wss://", "{}", url);
                    assert_eq!(h.domain, host, "{}", url);
                    assert_eq!(h.port, port, "{}", url);
                    assert_eq!(h.path, format!("/{}", path), "{}", url);
                }
            }
        }
    }
}
