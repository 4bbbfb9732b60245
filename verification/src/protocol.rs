//! WebSocket URLs: the scheme, host, port and path that a `ws://` or
//! `wss://` URL names.

use vstd::prelude::*;

use crate::text::{
    chars_match_at, chars_of, decimal, digit_char, index_of, lemma_index_of_from, lemma_index_of_unique,
    position_in, starts_with_chars,
};

verus! {

/// The two WebSocket schemes.
#[derive(Debug, PartialEq, Eq, Structural)]
pub enum WsProtocol {
    Wss,
    Ws,
}

/// Where a WebSocket URL points: scheme, host name, resolved address, port
/// and request path.
#[derive(Debug)]
pub struct HostInfo {
    pub protocol: WsProtocol,
    pub domain: String,
    pub ip: String,
    pub port: u16,
    pub path: String,
}

/// One address that name resolution gave for a host: whether it is an
/// IPv4 address, and its text.
pub struct ResolvedAddr {
    pub is_ipv4: bool,
    pub ip: String,
}

/// The URL prefix of a scheme.
pub open spec fn scheme_prefix(protocol: WsProtocol) -> Seq<char> {
    match protocol {
        WsProtocol::Wss => seq!['w', 's', 's', ':', '/', '/'],
        WsProtocol::Ws => seq!['w', 's', ':', '/', '/'],
    }
}

/// The port a scheme uses when the URL names none, or names one that is no
/// number in the `u16` range.
pub open spec fn default_port(protocol: WsProtocol) -> u16 {
    match protocol {
        WsProtocol::Wss => 443,
        WsProtocol::Ws => 80,
    }
}

/// The scheme that `url` starts with, `wss://` tried first.
pub open spec fn url_protocol(url: Seq<char>) -> Option<WsProtocol> {
    if scheme_prefix(WsProtocol::Wss).is_prefix_of(url) {
        Some(WsProtocol::Wss)
    } else if scheme_prefix(WsProtocol::Ws).is_prefix_of(url) {
        Some(WsProtocol::Ws)
    } else {
        None
    }
}

/// `s` with every leading repetition of `p` removed.
pub open spec fn strip_prefixes(s: Seq<char>, p: Seq<char>) -> Seq<char>
    decreases s.len(),
{
    if p.len() > 0 && p.is_prefix_of(s) {
        strip_prefixes(s.skip(p.len() as int), p)
    } else {
        s
    }
}

/// What follows the scheme: `url` with every leading repetition of its
/// scheme's prefix removed.
pub open spec fn url_rest(url: Seq<char>, protocol: WsProtocol) -> Seq<char> {
    strip_prefixes(url, scheme_prefix(protocol))
}

/// The host and port part: the rest up to its first `/`.
pub open spec fn url_authority(url: Seq<char>, protocol: WsProtocol) -> Seq<char> {
    let rest = url_rest(url, protocol);
    rest.take(index_of(rest, '/'))
}

/// The host: the authority up to its first `:`.
pub open spec fn url_host(url: Seq<char>, protocol: WsProtocol) -> Seq<char> {
    let auth = url_authority(url, protocol);
    auth.take(index_of(auth, ':'))
}

/// The port text: what stands between the authority's first `:` and the
/// next `:` or its end; none where the authority holds no `:`.
pub open spec fn url_port_text(url: Seq<char>, protocol: WsProtocol) -> Option<Seq<char>> {
    let auth = url_authority(url, protocol);
    let i = index_of(auth, ':');
    if i < auth.len() {
        let after = auth.skip(i + 1);
        Some(after.take(index_of(after, ':')))
    } else {
        None
    }
}

/// The port: the port text read as a `u16`, or the scheme's default port.
pub open spec fn url_port(url: Seq<char>, protocol: WsProtocol) -> u16 {
    match url_port_text(url, protocol) {
        Some(text) => match parse_u16_spec(text) {
            Some(port) => port,
            None => default_port(protocol),
        },
        None => default_port(protocol),
    }
}

/// The path: `/` followed by what follows the rest's first `/`.
pub open spec fn url_path(url: Seq<char>, protocol: WsProtocol) -> Seq<char> {
    let rest = url_rest(url, protocol);
    let i = index_of(rest, '/');
    if i < rest.len() {
        seq!['/'] + rest.skip(i + 1)
    } else {
        seq!['/']
    }
}

/// The address text that a resolver's answer gives: the answer, or
/// `parse error` where there is none.
pub open spec fn ip_text(answer: Option<String>) -> Seq<char> {
    match answer {
        Some(s) => s@,
        None => "parse error"@,
    }
}

pub open spec fn is_digit(c: char) -> bool {
    '0' <= c && c <= '9'
}

pub open spec fn digit_value(c: char) -> nat {
    (c as int - '0' as int) as nat
}

/// The number that a sequence of decimal digits denotes.
pub open spec fn decimal_value(s: Seq<char>) -> nat
    decreases s.len(),
{
    if s.len() == 0 {
        0
    } else {
        decimal_value(s.drop_last()) * 10 + digit_value(s.last())
    }
}

/// `s` without a leading `+`.
pub open spec fn unsigned_digits(s: Seq<char>) -> Seq<char> {
    if s.len() > 0 && s[0] == '+' {
        s.skip(1)
    } else {
        s
    }
}

/// What `str::parse::<u16>` accepts: an optional `+`, then one or more
/// decimal digits whose value fits in a `u16`.
pub open spec fn parse_u16_spec(s: Seq<char>) -> Option<u16> {
    let digits = unsigned_digits(s);
    if digits.len() > 0 && (forall|i: int| 0 <= i < digits.len() ==> is_digit(#[trigger] digits[i]))
        && decimal_value(digits) <= 65535 {
        Some(decimal_value(digits) as u16)
    } else {
        None
    }
}

proof fn lemma_decimal_prefix(s: Seq<char>, k: int)
    requires
        0 <= k <= s.len(),
    ensures
        decimal_value(s.take(k)) <= decimal_value(s),
    decreases s.len() - k,
{
    if k < s.len() {
        lemma_decimal_prefix(s, k + 1);
        assert(s.take(k + 1).drop_last() =~= s.take(k));
    } else {
        assert(s.take(k) =~= s);
    }
}

/// Reads `s[start..end]` as `str::parse::<u16>` does.
fn parse_u16_in(s: &Vec<char>, start: usize, end: usize) -> (r: Option<u16>)
    requires
        start <= end <= s.len(),
    ensures
        r == parse_u16_spec(s@.subrange(start as int, end as int)),
{
    let ghost text = s@.subrange(start as int, end as int);
    let mut first = start;
    if first < end && s[first] == '+' {
        first = first + 1;
    }
    let ghost digits = s@.subrange(first as int, end as int);
    assert(digits =~= unsigned_digits(text));
    if first == end {
        return None;
    }
    let mut acc: u32 = 0;
    let mut i = first;
    while i < end
        invariant
            start <= first <= i <= end <= s.len(),
            first < end,
            digits == s@.subrange(first as int, end as int),
            text == s@.subrange(start as int, end as int),
            digits == unsigned_digits(text),
            acc <= 65535,
            acc == decimal_value(digits.take(i - first)),
            forall|j: int| 0 <= j < i - first ==> is_digit(#[trigger] digits[j]),
        decreases end - i,
    {
        let c = s[i];
        if !(c >= '0' && c <= '9') {
            assert(!is_digit(digits[i - first]));
            return None;
        }
        let next = acc * 10 + (c as u32 - '0' as u32);
        assert(digits.take(i + 1 - first).drop_last() =~= digits.take(i - first));
        if next > 65535 {
            proof {
                lemma_decimal_prefix(digits, i + 1 - first);
            }
            return None;
        }
        acc = next;
        i = i + 1;
    }
    assert(digits.take(end - first) =~= digits);
    Some(acc as u16)
}

impl HostInfo {
    /// Reads a `ws://` or `wss://` URL: the scheme (every leading repetition
    /// of its prefix is skipped), the host up to the first `:` of the part
    /// before the first `/`, the port after that `:` (the scheme's default
    /// where there is none or it is no `u16`), and the path: `/` followed
    /// by what follows that first `/`. `resolve` is asked once for the
    /// address of host and port; where it answers none the address reads
    /// `parse error`. A URL with another scheme gives `None`.
    #[verifier::spinoff_prover]
    pub fn parse_url<F: Fn(&str, u16) -> Option<String>>(url: &str, resolve: F) -> (res: Option<Self>)
        requires
            forall|d: &str, p: u16| resolve.requires((d, p)),
        ensures
            res is None <==> url_protocol(url@) is None,
            res matches Some(h) ==> {
                &&& url_protocol(url@) == Some(h.protocol)
                &&& h.domain@ == url_host(url@, h.protocol)
                &&& h.port == url_port(url@, h.protocol)
                &&& h.path@ == url_path(url@, h.protocol)
                &&& exists|d: &str, answer: Option<String>|
                    d@ == h.domain@ && #[trigger] resolve.ensures((d, h.port), answer) && h.ip@ == ip_text(answer)
            },
    {
        let chars = chars_of(url);
        let wss = chars_of("wss://");
        let ws = chars_of("ws://");
        proof {
            reveal_strlit("wss://");
            reveal_strlit("ws://");
            assert(wss@ =~= scheme_prefix(WsProtocol::Wss));
            assert(ws@ =~= scheme_prefix(WsProtocol::Ws));
        }
        let protocol;
        let prefix;
        if starts_with_chars(&chars, &wss) {
            protocol = WsProtocol::Wss;
            prefix = wss;
        } else if starts_with_chars(&chars, &ws) {
            protocol = WsProtocol::Ws;
            prefix = ws;
        } else {
            return None;
        }
        let len = chars.len();
        let start = skip_prefixes(&chars, &prefix);
        let ghost rest = chars@.skip(start as int);
        assert(chars@.subrange(start as int, len as int) =~= rest);
        let slash = position_in(&chars, '/', start, len);
        let ghost auth = rest.take(index_of(rest, '/'));
        assert(chars@.subrange(start as int, slash as int) =~= auth);
        let colon = position_in(&chars, ':', start, slash);
        assert(chars@.subrange(start as int, colon as int) =~= auth.take(index_of(auth, ':')));
        let domain = url.substring_char(start, colon).to_owned();
        let port = port_in(&chars, start, colon, slash, &protocol);
        let mut path = "/".to_owned();
        proof {
            reveal_strlit("/");
        }
        if slash < len {
            path.append(url.substring_char(slash + 1, len));
            assert(chars@.subrange(slash + 1, len as int) =~= rest.skip(index_of(rest, '/') + 1));
        }
        let answer = resolve(domain.as_str(), port);
        let ip = match answer {
            Some(s) => s,
            None => "parse error".to_owned(),
        };
        Some(HostInfo { protocol, domain, ip, port, path })
    }
}

/// The position where the rest of `chars` starts once every leading
/// repetition of `prefix` is skipped.
fn skip_prefixes(chars: &Vec<char>, prefix: &Vec<char>) -> (start: usize)
    requires
        prefix@.len() > 0,
    ensures
        start <= chars@.len(),
        chars@.skip(start as int) == strip_prefixes(chars@, prefix@),
{
    let len = chars.len();
    let mut start: usize = 0;
    assert(chars@.skip(0) =~= chars@);
    while chars_match_at(chars, prefix, start)
        invariant
            start <= len == chars@.len(),
            prefix@.len() > 0,
            strip_prefixes(chars@.skip(start as int), prefix@) == strip_prefixes(chars@, prefix@),
        decreases len - start,
    {
        let ghost cur = chars@.skip(start as int);
        assert(cur.subrange(0, prefix@.len() as int) =~= chars@.subrange(start as int, start + prefix@.len()));
        assert(cur.skip(prefix@.len() as int) =~= chars@.skip(start + prefix@.len()));
        start = start + prefix.len();
    }
    proof {
        let rest = chars@.skip(start as int);
        if prefix@.is_prefix_of(rest) {
            assert(rest.subrange(0, prefix@.len() as int) =~= chars@.subrange(start as int, start + prefix@.len()));
        }
    }
    start
}

/// The port that the authority `chars[start..slash]` names, whose first `:`
/// (or its end) stands at `colon`.
fn port_in(chars: &Vec<char>, start: usize, colon: usize, slash: usize, protocol: &WsProtocol) -> (port: u16)
    requires
        start <= colon <= slash <= chars@.len(),
        colon - start == index_of(chars@.subrange(start as int, slash as int), ':'),
    ensures
        port == ({
            let auth = chars@.subrange(start as int, slash as int);
            let i = index_of(auth, ':');
            if i < auth.len() {
                let after = auth.skip(i + 1);
                match parse_u16_spec(after.take(index_of(after, ':'))) {
                    Some(p) => p,
                    None => default_port(*protocol),
                }
            } else {
                default_port(*protocol)
            }
        }),
{
    if colon < slash {
        let ghost auth = chars@.subrange(start as int, slash as int);
        let ghost after = auth.skip(index_of(auth, ':') + 1);
        assert(chars@.subrange(colon + 1, slash as int) =~= after);
        let port_end = position_in(chars, ':', colon + 1, slash);
        assert(chars@.subrange(colon + 1, port_end as int) =~= after.take(index_of(after, ':')));
        match parse_u16_in(chars, colon + 1, port_end) {
            Some(p) => p,
            None => default_port_of(protocol),
        }
    } else {
        default_port_of(protocol)
    }
}

fn default_port_of(protocol: &WsProtocol) -> (port: u16)
    ensures
        port == default_port(*protocol),
{
    match protocol {
        WsProtocol::Wss => 443,
        WsProtocol::Ws => 80,
    }
}

/// The text of the first IPv4 address among `candidates`, in their order;
/// none where there is no IPv4 address among them.
pub fn first_ipv4(candidates: &Vec<ResolvedAddr>) -> (ip: Option<String>)
    ensures
        match ip {
            Some(ip) => exists|i: int|
                0 <= i < candidates@.len() && #[trigger] candidates@[i].is_ipv4 && ip@ == candidates@[i].ip@
                    && forall|j: int| 0 <= j < i ==> !(#[trigger] candidates@[j].is_ipv4),
            None => forall|j: int| 0 <= j < candidates@.len() ==> !(#[trigger] candidates@[j].is_ipv4),
        },
{
    let mut i: usize = 0;
    while i < candidates.len()
        invariant
            i <= candidates@.len(),
            forall|j: int| 0 <= j < i ==> !(#[trigger] candidates@[j].is_ipv4),
        decreases candidates.len() - i,
    {
        if candidates[i].is_ipv4 {
            let ip = candidates[i].ip.clone();
            assert(candidates@[i as int].is_ipv4);
            return Some(ip);
        }
        i = i + 1;
    }
    None
}

/// The path of a WebSocket URL always starts with `/`.
pub proof fn lemma_path_is_absolute(url: Seq<char>, protocol: WsProtocol)
    ensures
        url_path(url, protocol).len() >= 1,
        url_path(url, protocol)[0] == '/',
{
}

/// The host of a WebSocket URL holds neither `/` nor `:`, and is a prefix
/// of what follows the scheme.
pub proof fn lemma_host_has_no_separator(url: Seq<char>, protocol: WsProtocol)
    ensures
        forall|i: int| 0 <= i < url_host(url, protocol).len() ==> {
            &&& url_host(url, protocol)[i] != '/'
            &&& url_host(url, protocol)[i] != ':'
        },
        url_host(url, protocol).is_prefix_of(url_rest(url, protocol)),
{
    let rest = url_rest(url, protocol);
    lemma_index_of_from(rest, '/', 0);
    let auth = url_authority(url, protocol);
    lemma_index_of_from(auth, ':', 0);
    assert(url_host(url, protocol) =~= rest.subrange(0, url_host(url, protocol).len() as int));
}

/// A URL without a port, or whose port text is no number of the `u16`
/// range, uses its scheme's default port: 443 for `wss`, 80 for `ws`.
pub proof fn lemma_default_port(url: Seq<char>, protocol: WsProtocol)
    requires
        url_port_text(url, protocol) matches Some(t) ==> parse_u16_spec(t) is None,
    ensures
        url_port(url, protocol) == (if protocol == WsProtocol::Wss { 443u16 } else { 80u16 }),
{
}

proof fn lemma_digit_char(d: nat)
    requires
        d < 10,
    ensures
        is_digit(digit_char(d)),
        digit_value(digit_char(d)) == d,
{
}

/// The decimal representation of a number is a non-empty run of digits
/// that reads back as the number.
pub proof fn lemma_decimal_roundtrip(n: nat)
    ensures
        decimal(n).len() >= 1,
        forall|i: int| 0 <= i < decimal(n).len() ==> is_digit(#[trigger] decimal(n)[i]),
        decimal_value(decimal(n)) == n,
    decreases n,
{
    lemma_digit_char(n % 10);
    if n >= 10 {
        lemma_decimal_roundtrip(n / 10);
        assert(decimal(n).drop_last() =~= decimal(n / 10));
        assert((n / 10) * 10 + n % 10 == n);
        assert(decimal(n).last() == digit_char(n % 10));
        assert(decimal_value(decimal(n)) == decimal_value(decimal(n / 10)) * 10 + digit_value(digit_char(n % 10)));
    } else {
        assert(decimal(n).drop_last() =~= Seq::<char>::empty());
        assert(decimal_value(Seq::<char>::empty()) == 0);
        assert(decimal(n).last() == digit_char(n));
        assert(decimal_value(decimal(n)) == decimal_value(Seq::<char>::empty()) * 10 + digit_value(digit_char(n)));
    }
}

/// What follows the scheme prefix in such a URL does not start with that
/// prefix again, so exactly one prefix is skipped.
proof fn lemma_single_prefix(protocol: WsProtocol, host: Seq<char>, digits: Seq<char>, path: Seq<char>)
    requires
        forall|i: int| 0 <= i < host.len() ==> #[trigger] host[i] != ':' && host[i] != '/',
        digits.len() >= 1,
        is_digit(digits[0]),
    ensures
        url_rest(scheme_prefix(protocol) + (host + seq![':'] + digits + seq!['/'] + path), protocol)
            == host + seq![':'] + digits + seq!['/'] + path,
{
    let prefix = scheme_prefix(protocol);
    let rest = host + seq![':'] + digits + seq!['/'] + path;
    let url = prefix + rest;
    let h = host.len() as int;
    let k = prefix.len() as int;
    assert(rest[h] == ':');
    assert(rest[h + 1] == digits[0]);
    if prefix.is_prefix_of(rest) {
        assert(rest.subrange(0, k)[k - 3] == ':');
        if h < k - 3 {
            assert(rest.subrange(0, k)[h] == rest[h]);
        } else if h > k - 3 {
            assert(rest[k - 3] == host[k - 3]);
        } else {
            assert(rest.subrange(0, k)[k - 2] == '/');
        }
    }
    assert(!prefix.is_prefix_of(rest));
    assert(strip_prefixes(rest, prefix) == rest);
    assert(url.subrange(0, k) =~= prefix);
    assert(prefix.is_prefix_of(url));
    assert(url.skip(k) =~= rest);
    assert(strip_prefixes(url, prefix) == strip_prefixes(url.skip(k), prefix));
}

/// A URL composed of a scheme prefix, a host without `:` or `/`, a port
/// written in decimal, `/` and any path reads back as that scheme, host,
/// port and path.
#[verifier::rlimit(50)]
pub proof fn lemma_compose_then_parse(protocol: WsProtocol, host: Seq<char>, port: u16, path: Seq<char>)
    requires
        forall|i: int| 0 <= i < host.len() ==> #[trigger] host[i] != ':' && host[i] != '/',
    ensures
        ({
            let url = scheme_prefix(protocol) + host + seq![':'] + decimal(port as nat) + seq!['/'] + path;
            &&& url_protocol(url) == Some(protocol)
            &&& url_host(url, protocol) == host
            &&& url_port(url, protocol) == port
            &&& url_path(url, protocol) == seq!['/'] + path
        }),
{
    let prefix = scheme_prefix(protocol);
    let digits = decimal(port as nat);
    lemma_decimal_roundtrip(port as nat);
    let rest = host + seq![':'] + digits + seq!['/'] + path;
    let url = prefix + rest;
    assert(url =~= scheme_prefix(protocol) + host + seq![':'] + decimal(port as nat) + seq!['/'] + path);
    let h = host.len() as int;
    let k = prefix.len() as int;
    assert(url.subrange(0, k) =~= prefix);
    if protocol == WsProtocol::Ws {
        assert(url[2] == ':');
        assert(!scheme_prefix(WsProtocol::Wss).is_prefix_of(url));
    }
    lemma_single_prefix(protocol, host, digits, path);
    let slash = h + 1 + digits.len();
    assert forall|j: int| 0 <= j < slash implies #[trigger] rest[j] != '/' by {
        if j > h {
            assert(rest[j] == digits[j - h - 1]);
            assert(is_digit(digits[j - h - 1]));
        }
    }
    assert(rest[slash] == '/');
    lemma_index_of_unique(rest, '/', slash);
    let auth = rest.take(slash);
    assert(auth =~= host + seq![':'] + digits);
    assert forall|j: int| 0 <= j < h implies #[trigger] auth[j] != ':' by {
        assert(auth[j] == host[j]);
    }
    lemma_index_of_unique(auth, ':', h);
    assert(auth.take(h) =~= host);
    let after = auth.skip(h + 1);
    assert(after =~= digits);
    assert forall|j: int| 0 <= j < digits.len() implies #[trigger] digits[j] != ':' by {
        assert(is_digit(digits[j]));
    }
    lemma_index_of_unique(digits, ':', digits.len() as int);
    assert(digits.take(digits.len() as int) =~= digits);
    assert(digits[0] != '+') by {
        assert(is_digit(digits[0]));
    }
    assert(unsigned_digits(digits) == digits);
    assert(rest.skip(slash + 1) =~= path);
}

/// What follows the scheme prefix in a URL without a port does not start
/// with that prefix again, so exactly one prefix is skipped.
proof fn lemma_single_prefix_without_port(protocol: WsProtocol, rest: Seq<char>, host: Seq<char>)
    requires
        forall|i: int| 0 <= i < host.len() ==> #[trigger] host[i] != ':' && host[i] != '/',
        host.is_prefix_of(rest),
        rest.len() > host.len() ==> rest[host.len() as int] == '/',
    ensures
        url_rest(scheme_prefix(protocol) + rest, protocol) == rest,
{
    let prefix = scheme_prefix(protocol);
    let url = prefix + rest;
    let h = host.len() as int;
    let k = prefix.len() as int;
    if prefix.is_prefix_of(rest) {
        assert(rest.subrange(0, k)[k - 3] == ':');
        if h > k - 3 {
            assert(rest[k - 3] == host[k - 3]);
        } else {
            assert(rest[h] == '/');
            assert(rest.subrange(0, k)[h] == rest[h]);
        }
    }
    assert(strip_prefixes(rest, prefix) == rest);
    assert(url.subrange(0, k) =~= prefix);
    assert(prefix.is_prefix_of(url));
    assert(url.skip(k) =~= rest);
    assert(strip_prefixes(url, prefix) == strip_prefixes(url.skip(k), prefix));
}

/// A URL composed of a scheme prefix, a host without `:` or `/`, `/` and
/// any path, naming no port, reads back as that scheme and host, the
/// scheme's default port (443 for `wss`, 80 for `ws`) and the path `/`
/// followed by the whole of what came after the host; without the `/`
/// and path the path is `/`.
#[verifier::rlimit(50)]
pub proof fn lemma_compose_without_port(protocol: WsProtocol, host: Seq<char>, path: Seq<char>)
    requires
        forall|i: int| 0 <= i < host.len() ==> #[trigger] host[i] != ':' && host[i] != '/',
    ensures
        ({
            let url = scheme_prefix(protocol) + host + seq!['/'] + path;
            &&& url_protocol(url) == Some(protocol)
            &&& url_host(url, protocol) == host
            &&& url_port(url, protocol) == (if protocol == WsProtocol::Wss { 443u16 } else { 80u16 })
            &&& url_path(url, protocol) == seq!['/'] + path
        }),
        ({
            let url = scheme_prefix(protocol) + host;
            &&& url_protocol(url) == Some(protocol)
            &&& url_host(url, protocol) == host
            &&& url_port(url, protocol) == (if protocol == WsProtocol::Wss { 443u16 } else { 80u16 })
            &&& url_path(url, protocol) == seq!['/']
        }),
{
    let prefix = scheme_prefix(protocol);
    let k = prefix.len() as int;
    let h = host.len() as int;
    assert forall|j: int| 0 <= j < h implies #[trigger] host[j] != ':' by {}
    lemma_index_of_unique(host, ':', h);
    assert(host.take(h) =~= host);
    // With a path.
    let rest = host + seq!['/'] + path;
    let url = prefix + rest;
    assert(url =~= scheme_prefix(protocol) + host + seq!['/'] + path);
    assert(url.subrange(0, k) =~= prefix);
    if protocol == WsProtocol::Ws {
        assert(url[2] == ':');
        assert(!scheme_prefix(WsProtocol::Wss).is_prefix_of(url));
    }
    assert(host.is_prefix_of(rest)) by {
        assert(rest.subrange(0, h) =~= host);
    }
    lemma_single_prefix_without_port(protocol, rest, host);
    assert forall|j: int| 0 <= j < h implies #[trigger] rest[j] != '/' by {
        assert(rest[j] == host[j]);
    }
    lemma_index_of_unique(rest, '/', h);
    assert(rest.take(h) =~= host);
    assert(rest.skip(h + 1) =~= path);
    // Without one.
    let url2 = prefix + host;
    assert(url2.subrange(0, k) =~= prefix);
    if protocol == WsProtocol::Ws {
        assert(url2[2] == ':');
        assert(!scheme_prefix(WsProtocol::Wss).is_prefix_of(url2));
    }
    assert(host.is_prefix_of(host)) by {
        assert(host.subrange(0, h) =~= host);
    }
    lemma_single_prefix_without_port(protocol, host, host);
    assert forall|j: int| 0 <= j < h implies #[trigger] host[j] != '/' by {}
    lemma_index_of_unique(host, '/', h);
}

/// `str::parse::<u16>` forms of a port: the decimal digits of a number of
/// the `u16` range, with or without a leading `+`, read as that number; the
/// digits of a larger number, an empty text, a lone `+`, or any text with
/// a character that is neither a digit nor a leading `+` read as nothing.
pub proof fn lemma_port_text_forms(n: nat, s: Seq<char>)
    ensures
        n < 65536 ==> parse_u16_spec(decimal(n)) == Some(n as u16),
        n < 65536 ==> parse_u16_spec(seq!['+'] + decimal(n)) == Some(n as u16),
        n >= 65536 ==> parse_u16_spec(decimal(n)) is None,
        s.len() == 0 ==> parse_u16_spec(s) is None,
        s == seq!['+'] ==> parse_u16_spec(s) is None,
        (exists|i: int| 0 <= i < s.len() && !is_digit(#[trigger] s[i]) && !(i == 0 && s[i] == '+'))
            ==> parse_u16_spec(s) is None,
{
    lemma_decimal_roundtrip(n);
    let d = decimal(n);
    assert(!(d[0] == '+')) by {
        assert(is_digit(d[0]));
    }
    assert(unsigned_digits(d) == d);
    let pd = seq!['+'] + d;
    assert(pd.skip(1) =~= d);
    assert(unsigned_digits(pd) == d);
    if exists|i: int| 0 <= i < s.len() && !is_digit(#[trigger] s[i]) && !(i == 0 && s[i] == '+') {
        let i = choose|i: int| 0 <= i < s.len() && !is_digit(#[trigger] s[i]) && !(i == 0 && s[i] == '+');
        let u = unsigned_digits(s);
        if s.len() > 0 && s[0] == '+' {
            assert(u[i - 1] == s[i]);
        } else {
            assert(u[i] == s[i]);
        }
    }
}

/// Skipping the repetitions of a scheme prefix: one more leading copy of
/// the prefix changes nothing, and what is left never starts with it.
pub proof fn lemma_strip_prefixes(s: Seq<char>, p: Seq<char>)
    requires
        p.len() > 0,
    ensures
        strip_prefixes(p + s, p) == strip_prefixes(s, p),
        !p.is_prefix_of(strip_prefixes(s, p)),
    decreases s.len(),
{
    assert((p + s).subrange(0, p.len() as int) =~= p);
    assert((p + s).skip(p.len() as int) =~= s);
    if p.is_prefix_of(s) {
        lemma_strip_prefixes(s.skip(p.len() as int), p);
    }
}

} // verus!
