//! The service document: where a server's four framed services are and how
//! a client should trust them. A client fetches it once and derives every
//! endpoint from it. Its JSON form is written and read outside this module;
//! here are the document as a value and the rules that build and read its
//! entries.
use crate::text::{chars_of, push_char, string_of_chars};
use vstd::prelude::*;
use vstd::string::*;

verus! {

/// Where a server publishes its document.
pub const WELL_KNOWN_PATH: &'static str = "/.well-known/tacenta";

/// The document format this module writes and reads.
pub const VERSION: u32 = 1;

/// The server's default ports for directory, relay, accounts, provisioning.
pub const DEFAULT_PORTS: [u16; 4] = [4720, 4721, 4722, 4723];

/// How a client trusts the server behind the four services.
#[derive(Debug, Clone, PartialEq, Eq)]
pub enum Tls {
    /// No TLS: a development server on loopback.
    Plaintext,
    /// A publicly trusted certificate presenting `server_name`.
    WebPki,
    /// A private trust root: the PEM holds the trust anchors.
    PrivateCa { trust_anchors_pem: String },
}

/// A trust mode as a value.
pub enum TlsV {
    Plaintext,
    WebPki,
    PrivateCa(Seq<char>),
}

impl View for Tls {
    type V = TlsV;

    open spec fn view(&self) -> TlsV {
        match self {
            Tls::Plaintext => TlsV::Plaintext,
            Tls::WebPki => TlsV::WebPki,
            Tls::PrivateCa { trust_anchors_pem } => TlsV::PrivateCa(trust_anchors_pem@),
        }
    }
}

impl Tls {
    /// The wire name of the mode, for logs: `none`, `web-pki`, `private-ca`.
    pub fn wire_name(&self) -> (name: &'static str)
        ensures
            name@ == match self@ {
                TlsV::Plaintext => seq!['n', 'o', 'n', 'e'],
                TlsV::WebPki => seq!['w', 'e', 'b', '-', 'p', 'k', 'i'],
                TlsV::PrivateCa(_) => seq!['p', 'r', 'i', 'v', 'a', 't', 'e', '-', 'c', 'a'],
            },
    {
        match self {
            Tls::Plaintext => {
                proof {
                    reveal_strlit("none");
                }
                "none"
            },
            Tls::WebPki => {
                proof {
                    reveal_strlit("web-pki");
                }
                "web-pki"
            },
            Tls::PrivateCa { .. } => {
                proof {
                    reveal_strlit("private-ca");
                }
                "private-ca"
            },
        }
    }
}

/// The document: the four services as `host:port` entries, the name the
/// TLS certificate presents, the trust mode, and the WebSocket base URL when
/// the deployment offers the carriage.
#[derive(Debug, Clone, PartialEq, Eq)]
pub struct ServiceDocument {
    /// The document's own format version; see [`VERSION`].
    pub version: u32,
    /// The name the server's TLS certificate presents.
    pub server_name: String,
    /// The directory service, as `host:port`.
    pub directory: String,
    /// The relay, as `host:port`.
    pub relay: String,
    /// The account service, as `host:port`.
    pub accounts: String,
    /// The provisioning service, as `host:port`.
    pub provisioning: String,
    /// How to trust the server.
    pub tls: Tls,
    /// The WebSocket base URL, if the deployment offers one.
    pub ws: Option<String>,
}

/// A document as a value.
pub struct ServiceDocumentV {
    pub version: u32,
    pub server_name: Seq<char>,
    pub directory: Seq<char>,
    pub relay: Seq<char>,
    pub accounts: Seq<char>,
    pub provisioning: Seq<char>,
    pub tls: TlsV,
    pub ws: Option<Seq<char>>,
}

impl View for ServiceDocument {
    type V = ServiceDocumentV;

    open spec fn view(&self) -> ServiceDocumentV {
        ServiceDocumentV {
            version: self.version,
            server_name: self.server_name@,
            directory: self.directory@,
            relay: self.relay@,
            accounts: self.accounts@,
            provisioning: self.provisioning@,
            tls: self.tls@,
            ws: match self.ws {
                Some(w) => Some(w@),
                None => None,
            },
        }
    }
}

/// The decimal digit `d`.
pub open spec fn digit_char(d: nat) -> char {
    if d == 0 {
        '0'
    } else if d == 1 {
        '1'
    } else if d == 2 {
        '2'
    } else if d == 3 {
        '3'
    } else if d == 4 {
        '4'
    } else if d == 5 {
        '5'
    } else if d == 6 {
        '6'
    } else if d == 7 {
        '7'
    } else if d == 8 {
        '8'
    } else {
        '9'
    }
}

/// `n` in decimal, without leading zeros.
pub open spec fn decimal(n: nat) -> Seq<char>
    decreases n,
{
    if n < 10 {
        seq![digit_char(n)]
    } else {
        decimal(n / 10).push(digit_char(n % 10))
    }
}

/// A host as an entry names it: an IPv6 address (it holds a `:`) goes in
/// brackets unless it already is.
pub open spec fn bracketed(host: Seq<char>) -> Seq<char> {
    if host.contains(':') && !(host.len() > 0 && host[0] == '[') {
        seq!['['] + host + seq![']']
    } else {
        host
    }
}

/// The `host:port` entry for a service.
pub open spec fn entry(host: Seq<char>, port: u16) -> Seq<char> {
    bracketed(host) + seq![':'] + decimal(port as nat)
}

/// `s` without its trailing `/`s.
pub open spec fn trim_trailing_slashes(s: Seq<char>) -> Seq<char>
    decreases s.len(),
{
    if s.len() > 0 && s.last() == '/' {
        trim_trailing_slashes(s.drop_last())
    } else {
        s
    }
}

/// `s` up to its first `c`, or all of it when there is none.
pub open spec fn before_first(s: Seq<char>, c: char) -> Seq<char>
    decreases s.len(),
{
    if s.len() == 0 {
        s
    } else if s[0] == c {
        Seq::empty()
    } else {
        seq![s[0]] + before_first(s.drop_first(), c)
    }
}

/// `s` up to its last `c`, `None` when there is none.
pub open spec fn before_last(s: Seq<char>, c: char) -> Option<Seq<char>>
    decreases s.len(),
{
    if s.len() == 0 {
        None
    } else if s.last() == c {
        Some(s.drop_last())
    } else {
        before_last(s.drop_last(), c)
    }
}

/// The host part of a `host:port` entry, without IPv6 brackets.
pub open spec fn spec_host_of(hostport: Seq<char>) -> Seq<char> {
    if hostport.len() > 0 && hostport[0] == '[' {
        before_first(hostport.drop_first(), ']')
    } else {
        match before_last(hostport, ':') {
            Some(h) => h,
            None => hostport,
        }
    }
}

/// The document for the four services on `host` at `ports`, trusted as
/// `tls` under `server_name`, offering no WebSocket carriage.
pub open spec fn spec_on(host: Seq<char>, server_name: Seq<char>, ports: Seq<u16>, tls: TlsV) -> ServiceDocumentV {
    ServiceDocumentV {
        version: VERSION,
        server_name,
        directory: entry(host, ports[0]),
        relay: entry(host, ports[1]),
        accounts: entry(host, ports[2]),
        provisioning: entry(host, ports[3]),
        tls,
        ws: None,
    }
}

/// The decimal digit `d`.
fn digit(d: u16) -> (c: char)
    requires
        d < 10,
    ensures
        c == digit_char(d as nat),
{
    if d == 0 {
        '0'
    } else if d == 1 {
        '1'
    } else if d == 2 {
        '2'
    } else if d == 3 {
        '3'
    } else if d == 4 {
        '4'
    } else if d == 5 {
        '5'
    } else if d == 6 {
        '6'
    } else if d == 7 {
        '7'
    } else if d == 8 {
        '8'
    } else {
        '9'
    }
}

/// Append `n` in decimal.
fn push_decimal(s: &mut String, n: u16)
    ensures
        final(s)@ == old(s)@ + decimal(n as nat),
    decreases n,
{
    if n >= 10 {
        push_decimal(s, n / 10);
    }
    let ghost mid = s@;
    push_char(s, digit(n % 10));
    proof {
        if n >= 10 {
            assert(s@ =~= old(s)@ + decimal(n as nat));
        } else {
            assert(s@ =~= old(s)@ + decimal(n as nat));
        }
    }
}

/// Whether `chars` holds `c`.
fn holds_char(chars: &[char], c: char) -> (r: bool)
    ensures
        r == chars@.contains(c),
{
    let mut i: usize = 0;
    while i < chars.len()
        invariant
            0 <= i <= chars@.len(),
            forall|j: int| 0 <= j < i ==> chars@[j] != c,
        decreases chars@.len() - i,
    {
        if chars[i] == c {
            assert(chars@[i as int] == c);
            return true;
        }
        i = i + 1;
    }
    false
}

/// The host as an entry names it.
fn bracket(host: &str) -> (r: Vec<char>)
    ensures
        r@ == bracketed(host@),
{
    let chars = chars_of(host);
    if holds_char(chars.as_slice(), ':') && !(chars.len() > 0 && chars[0] == '[') {
        let mut r: Vec<char> = Vec::new();
        r.push('[');
        let mut i: usize = 0;
        while i < chars.len()
            invariant
                0 <= i <= chars@.len(),
                r@ == seq!['['] + chars@.take(i as int),
            decreases chars@.len() - i,
        {
            r.push(chars[i]);
            i = i + 1;
            assert(r@ =~= seq!['['] + chars@.take(i as int));
        }
        r.push(']');
        assert(chars@.take(i as int) =~= chars@);
        assert(r@ =~= seq!['['] + host@ + seq![']']);
        r
    } else {
        chars
    }
}

/// The `host:port` entry for a service.
fn entry_of(host: &[char], port: u16) -> (s: String)
    ensures
        s@ == host@ + seq![':'] + decimal(port as nat),
{
    let mut s = string_of_chars(host);
    push_char(&mut s, ':');
    push_decimal(&mut s, port);
    assert(s@ =~= host@ + seq![':'] + decimal(port as nat));
    s
}

/// `s` without its trailing `/`s.
fn without_trailing_slashes(s: &str) -> (r: String)
    ensures
        r@ == trim_trailing_slashes(s@),
{
    let chars = chars_of(s);
    let mut n: usize = chars.len();
    assert(chars@.take(chars@.len() as int) =~= chars@);
    while n > 0 && chars[n - 1] == '/'
        invariant
            0 <= n <= chars@.len(),
            trim_trailing_slashes(s@) == trim_trailing_slashes(chars@.take(n as int)),
        decreases n,
    {
        assert(chars@.take(n as int).drop_last() =~= chars@.take(n - 1));
        n = n - 1;
    }
    let (head, _) = chars.as_slice().split_at(n);
    assert(head@ =~= chars@.take(n as int));
    string_of_chars(head)
}

impl ServiceDocument {
    /// The four services on `host`, on the default ports, over web-PKI TLS
    /// presenting `host`: a hosted deployment.
    pub fn hosted(host: &str) -> (d: ServiceDocument)
        ensures
            d@ == spec_on(host@, host@, seq![4720u16, 4721, 4722, 4723], TlsV::WebPki),
    {
        ServiceDocument::on(host, host, DEFAULT_PORTS, Tls::WebPki)
    }

    /// The four services on `host`, on the default ports, without TLS: a
    /// development server on loopback.
    pub fn local(host: &str) -> (d: ServiceDocument)
        ensures
            d@ == spec_on(host@, host@, seq![4720u16, 4721, 4722, 4723], TlsV::Plaintext),
    {
        ServiceDocument::on(host, host, DEFAULT_PORTS, Tls::Plaintext)
    }

    /// The four services on `host` at `ports` (directory, relay, accounts,
    /// provisioning), trusted as `tls` under `server_name`.
    pub fn on(host: &str, server_name: &str, ports: [u16; 4], tls: Tls) -> (d: ServiceDocument)
        ensures
            d@ == spec_on(host@, server_name@, ports@, tls@),
    {
        let h = bracket(host);
        ServiceDocument {
            version: VERSION,
            server_name: server_name.to_owned(),
            directory: entry_of(h.as_slice(), ports[0]),
            relay: entry_of(h.as_slice(), ports[1]),
            accounts: entry_of(h.as_slice(), ports[2]),
            provisioning: entry_of(h.as_slice(), ports[3]),
            tls,
            ws: None,
        }
    }

    /// The same document, offering the WebSocket carriage at `ws` (a base
    /// URL), stored without trailing slashes.
    pub fn with_ws(self, ws: &str) -> (d: ServiceDocument)
        ensures
            d@ == (ServiceDocumentV { ws: Some(trim_trailing_slashes(ws@)), ..self@ }),
    {
        let mut d = self;
        d.ws = Some(without_trailing_slashes(ws));
        d
    }

    /// The WebSocket URL for one service (`directory`, `relay`, `accounts`,
    /// `provisioning`), if the document offers the carriage.
    pub fn ws_url(&self, service: &str) -> (url: Option<String>)
        ensures
            match self@.ws {
                Some(base) => url is Some && url->0@ == base + seq!['/'] + service@,
                None => url is None,
            },
    {
        match &self.ws {
            Some(base) => {
                let mut url = base.clone();
                push_char(&mut url, '/');
                url.append(service);
                assert(url@ =~= base@ + seq!['/'] + service@);
                Some(url)
            },
            None => None,
        }
    }

    /// The four `host:port` entries, in the order directory, relay,
    /// accounts, provisioning.
    pub fn endpoints(&self) -> (e: [&str; 4])
        ensures
            e[0]@ == self@.directory,
            e[1]@ == self@.relay,
            e[2]@ == self@.accounts,
            e[3]@ == self@.provisioning,
    {
        [self.directory.as_str(), self.relay.as_str(), self.accounts.as_str(), self.provisioning.as_str()]
    }
}

/// The first `c` in `chars` at or after `from`, or its length.
fn find_first(chars: &[char], from: usize, c: char) -> (i: usize)
    requires
        from <= chars@.len(),
    ensures
        from <= i <= chars@.len(),
        i < chars@.len() ==> chars@[i as int] == c,
        forall|j: int| from <= j < i ==> chars@[j] != c,
{
    let mut i = from;
    while i < chars.len() && chars[i] != c
        invariant
            from <= i <= chars@.len(),
            forall|j: int| from <= j < i ==> chars@[j] != c,
        decreases chars@.len() - i,
    {
        i = i + 1;
    }
    i
}

proof fn lemma_before_first(s: Seq<char>, c: char, i: int)
    requires
        0 <= i <= s.len(),
        i < s.len() ==> s[i] == c,
        forall|j: int| 0 <= j < i ==> s[j] != c,
    ensures
        before_first(s, c) == s.take(i),
    decreases s.len(),
{
    if s.len() > 0 && s[0] != c {
        lemma_before_first(s.drop_first(), c, i - 1);
        assert(s.take(i) =~= seq![s[0]] + s.drop_first().take(i - 1));
    } else if s.len() > 0 {
        assert(s.take(i) =~= Seq::<char>::empty());
    } else {
        assert(s.take(i) =~= s);
    }
}

proof fn lemma_before_last(s: Seq<char>, c: char, i: int)
    requires
        0 <= i <= s.len(),
        forall|j: int| i <= j < s.len() ==> s[j] != c,
        i > 0 ==> s[i - 1] == c,
    ensures
        before_last(s, c) == if i == 0 {
            None
        } else {
            Some(s.take(i - 1))
        },
    decreases s.len(),
{
    if s.len() > 0 {
        if s.last() == c {
            assert(i == s.len());
            assert(s.drop_last() =~= s.take(i - 1));
        } else {
            lemma_before_last(s.drop_last(), c, i);
            if i > 0 {
                assert(s.drop_last().take(i - 1) =~= s.take(i - 1));
            }
        }
    }
}

/// The host part of a `host:port` entry, without IPv6 brackets.
pub fn host_of(hostport: &str) -> (h: String)
    ensures
        h@ == spec_host_of(hostport@),
{
    let chars = chars_of(hostport);
    if chars.len() > 0 && chars[0] == '[' {
        let end = find_first(chars.as_slice(), 1, ']');
        proof {
            let rest = chars@.drop_first();
            assert forall|j: int| 0 <= j < end - 1 implies rest[j] != ']' by {
                assert(rest[j] == chars@[j + 1]);
            }
            lemma_before_first(rest, ']', end - 1);
            assert(rest.take(end - 1) =~= chars@.subrange(1, end as int));
        }
        let (head, _) = chars.as_slice().split_at(end);
        let (_, inner) = head.split_at(1);
        string_of_chars(inner)
    } else {
        let mut i: usize = chars.len();
        while i > 0 && chars[i - 1] != ':'
            invariant
                0 <= i <= chars@.len(),
                forall|j: int| i <= j < chars@.len() ==> chars@[j] != ':',
            decreases i,
        {
            i = i - 1;
        }
        proof {
            lemma_before_last(chars@, ':', i as int);
        }
        if i == 0 {
            string_of_chars(chars.as_slice())
        } else {
            let (head, _) = chars.as_slice().split_at(i - 1);
            string_of_chars(head)
        }
    }
}

proof fn lemma_decimal_digits(n: nat)
    ensures
        !decimal(n).contains(':'),
        !decimal(n).contains(']'),
    decreases n,
{
    if n >= 10 {
        lemma_decimal_digits(n / 10);
        assert forall|c: char| decimal(n).contains(c) implies c != ':' && c != ']' by {
            let i = choose|i: int| 0 <= i < decimal(n).len() && decimal(n)[i] == c;
            if i < decimal(n / 10).len() {
                assert(decimal(n / 10)[i] == c);
            }
        }
    } else {
        assert(decimal(n) =~= seq![digit_char(n)]);
    }
}

proof fn lemma_before_last_over(a: Seq<char>, d: Seq<char>)
    requires
        !d.contains(':'),
    ensures
        before_last(a + seq![':'] + d, ':') == Some(a),
    decreases d.len(),
{
    let s = a + seq![':'] + d;
    if d.len() == 0 {
        assert(s.drop_last() =~= a);
    } else {
        assert(d.last() != ':') by {
            assert(d[d.len() - 1] == d.last());
        }
        assert(s.drop_last() =~= a + seq![':'] + d.drop_last());
        assert forall|c: char| d.drop_last().contains(c) implies c != ':' by {
            let i = choose|i: int| 0 <= i < d.drop_last().len() && d.drop_last()[i] == c;
            assert(d[i] == c);
        }
        lemma_before_last_over(a, d.drop_last());
    }
}

proof fn lemma_before_first_over(h: Seq<char>, rest: Seq<char>)
    requires
        !h.contains(']'),
    ensures
        before_first(h + seq![']'] + rest, ']') == h,
    decreases h.len(),
{
    let s = h + seq![']'] + rest;
    if h.len() == 0 {
        assert(s[0] == ']');
    } else {
        assert(h[0] != ']');
        assert(s.drop_first() =~= h.drop_first() + seq![']'] + rest);
        assert forall|c: char| h.drop_first().contains(c) implies c != ']' by {
            let i = choose|i: int| 0 <= i < h.drop_first().len() && h.drop_first()[i] == c;
            assert(h[i + 1] == c);
        }
        lemma_before_first_over(h.drop_first(), rest);
        assert(h =~= seq![h[0]] + h.drop_first());
    }
}

/// The host an entry was built from is read back from it, brackets and
/// port removed: for a name, an IPv4 address, or an IPv6 address given
/// without brackets.
pub proof fn law_a_host_is_read_back_from_its_entry(host: Seq<char>, port: u16)
    requires
        !host.contains(']'),
        !(host.len() > 0 && host[0] == '['),
    ensures
        spec_host_of(entry(host, port)) == host,
{
    lemma_decimal_digits(port as nat);
    let d = decimal(port as nat);
    if host.contains(':') {
        let e = entry(host, port);
        assert(e =~= seq!['['] + (host + seq![']'] + (seq![':'] + d)));
        assert(e.drop_first() =~= host + seq![']'] + (seq![':'] + d));
        lemma_before_first_over(host, seq![':'] + d);
    } else {
        if host.len() > 0 {
            assert(entry(host, port)[0] == host[0]);
        } else {
            assert(entry(host, port)[0] == ':');
        }
        lemma_before_last_over(host, d);
    }
}

} // verus!
