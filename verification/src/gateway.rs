//! The gateway's request bodies, the rule that picks the address a request
//! is throttled under, and the service document a deployment publishes,
//! derived from its settings.
use crate::discovery::{spec_on, trim_trailing_slashes, ServiceDocument, ServiceDocumentV, Tls, TlsV, DEFAULT_PORTS};
use crate::text::{chars_of, string_of_chars};
use vstd::prelude::*;
use vstd::string::*;

verus! {

/// The `POST /v1/tenants` request body.
#[derive(Debug, Clone, PartialEq, Eq)]
pub struct CreateTenant {
    pub username: String,
    pub email: String,
    pub password: String,
}

/// The success body: the tenant's id and its one-time API key.
#[derive(Debug, Clone, PartialEq, Eq)]
pub struct TenantCreated {
    pub tenant_id: String,
    pub api_key: String,
}

/// A character with the Unicode `White_Space` property, the ones `str::trim`
/// removes.
pub open spec fn is_white_space(c: char) -> bool {
    let n = c as u32;
    (9 <= n <= 13) || n == 32 || n == 0x85 || n == 0xa0 || n == 0x1680 || (0x2000 <= n <= 0x200a) || n
        == 0x2028 || n == 0x2029 || n == 0x202f || n == 0x205f || n == 0x3000
}

/// `s` without its leading white space.
pub open spec fn trim_start(s: Seq<char>) -> Seq<char>
    decreases s.len(),
{
    if s.len() > 0 && is_white_space(s[0]) {
        trim_start(s.drop_first())
    } else {
        s
    }
}

/// `s` without its trailing white space.
pub open spec fn trim_end(s: Seq<char>) -> Seq<char>
    decreases s.len(),
{
    if s.len() > 0 && is_white_space(s.last()) {
        trim_end(s.drop_last())
    } else {
        s
    }
}

/// `s` after its last `c`, or all of it when there is none.
pub open spec fn after_last(s: Seq<char>, c: char) -> Seq<char>
    decreases s.len(),
{
    if s.len() == 0 {
        s
    } else if s.last() == c {
        Seq::empty()
    } else {
        after_last(s.drop_last(), c).push(s.last())
    }
}

/// The bucket every caller without the header shares.
pub open spec fn shared_bucket() -> Seq<char> {
    seq!['s', 'h', 'a', 'r', 'e', 'd']
}

/// The address to throttle on, from the `X-Forwarded-For` header's value:
/// its rightmost element, the one the nearest proxy appended, trimmed; or
/// the shared bucket when the header is absent or that element is empty.
pub open spec fn spec_client_ip(forwarded: Option<Seq<char>>) -> Seq<char> {
    match forwarded {
        Some(v) => {
            let t = trim_end(trim_start(after_last(v, ',')));
            if t.len() == 0 {
                shared_bucket()
            } else {
                t
            }
        },
        None => shared_bucket(),
    }
}

fn white_space(c: char) -> (r: bool)
    ensures
        r == is_white_space(c),
{
    let n = c as u32;
    (9 <= n && n <= 13) || n == 32 || n == 0x85 || n == 0xa0 || n == 0x1680 || (0x2000 <= n && n <= 0x200a)
        || n == 0x2028 || n == 0x2029 || n == 0x202f || n == 0x205f || n == 0x3000
}

proof fn lemma_after_last(s: Seq<char>, c: char, i: int)
    requires
        0 <= i <= s.len(),
        forall|j: int| i <= j < s.len() ==> s[j] != c,
        i > 0 ==> s[i - 1] == c,
    ensures
        after_last(s, c) == s.skip(i),
    decreases s.len(),
{
    if s.len() > 0 {
        if s.last() == c {
            assert(i == s.len());
            assert(s.skip(i) =~= Seq::<char>::empty());
        } else {
            lemma_after_last(s.drop_last(), c, i);
            assert(s.skip(i) =~= s.drop_last().skip(i).push(s.last()));
        }
    } else {
        assert(s.skip(i) =~= s);
    }
}

proof fn lemma_trim_start(s: Seq<char>, k: int)
    requires
        0 <= k <= s.len(),
        forall|j: int| 0 <= j < k ==> is_white_space(#[trigger] s[j]),
        k < s.len() ==> !is_white_space(s[k]),
    ensures
        trim_start(s) == s.skip(k),
    decreases s.len(),
{
    if k > 0 {
        assert(is_white_space(s[0]));
        assert forall|j: int| 0 <= j < k - 1 implies is_white_space(#[trigger] s.drop_first()[j]) by {
            assert(s.drop_first()[j] == s[j + 1]);
        }
        lemma_trim_start(s.drop_first(), k - 1);
        assert(s.drop_first().skip(k - 1) =~= s.skip(k));
    } else {
        assert(s.skip(0) =~= s);
    }
}

proof fn lemma_trim_end(s: Seq<char>, k: int)
    requires
        0 <= k <= s.len(),
        forall|j: int| k <= j < s.len() ==> is_white_space(#[trigger] s[j]),
        k > 0 ==> !is_white_space(s[k - 1]),
    ensures
        trim_end(s) == s.take(k),
    decreases s.len(),
{
    if k < s.len() {
        assert(is_white_space(s[s.len() - 1]));
        lemma_trim_end(s.drop_last(), k);
        assert(s.drop_last().take(k) =~= s.take(k));
    } else {
        assert(s.take(k) =~= s);
    }
}

/// The address to throttle on, from the value of the request's
/// `X-Forwarded-For` header when it has one. Only the rightmost element is
/// trusted: a front proxy appends the peer it saw, so everything to its left
/// is whatever the caller chose.
pub fn client_ip(forwarded: Option<&str>) -> (ip: String)
    ensures
        ip@ == spec_client_ip(match forwarded {
            Some(v) => Some(v@),
            None => None,
        }),
{
    match forwarded {
        Some(v) => {
            let chars = chars_of(v);
            let n = chars.len();
            let mut start: usize = n;
            while start > 0 && chars[start - 1] != ','
                invariant
                    0 <= start <= n,
                    n == chars@.len(),
                    forall|j: int| start <= j < n ==> chars@[j] != ',',
                decreases start,
            {
                start = start - 1;
            }
            let mut a: usize = start;
            while a < n && white_space(chars[a])
                invariant
                    start <= a <= n,
                    n == chars@.len(),
                    forall|j: int| start <= j < a ==> is_white_space(#[trigger] chars@[j]),
                decreases n - a,
            {
                a = a + 1;
            }
            let mut b: usize = n;
            while b > a && white_space(chars[b - 1])
                invariant
                    a <= b <= n,
                    n == chars@.len(),
                    forall|j: int| b <= j < n ==> is_white_space(#[trigger] chars@[j]),
                decreases b,
            {
                b = b - 1;
            }
            proof {
                lemma_after_last(v@, ',', start as int);
                let after = v@.skip(start as int);
                assert forall|j: int| 0 <= j < a - start implies is_white_space(#[trigger] after[j]) by {
                    assert(after[j] == chars@[start + j]);
                }
                lemma_trim_start(after, a - start);
                assert(after.skip(a - start) =~= v@.skip(a as int));
                let rest = v@.skip(a as int);
                assert forall|j: int| b - a <= j < rest.len() implies is_white_space(#[trigger] rest[j]) by {
                    assert(rest[j] == chars@[a + j]);
                }
                lemma_trim_end(rest, b - a);
                assert(rest.take(b - a) =~= chars@.subrange(a as int, b as int));
            }
            if a == b {
                proof {
                    reveal_strlit("shared");
                }
                String::from_str("shared")
            } else {
                let (head, _) = chars.as_slice().split_at(b);
                let (_, mid) = head.split_at(a);
                assert(mid@ =~= chars@.subrange(a as int, b as int));
                string_of_chars(mid)
            }
        },
        None => {
            proof {
                reveal_strlit("shared");
            }
            String::from_str("shared")
        },
    }
}

/// Varying what the caller prepends to the header cannot change the
/// bucket: an element before the last comma has no effect.
pub proof fn law_a_prepended_element_cannot_choose_the_bucket(prefix: Seq<char>, last: Seq<char>)
    requires
        !last.contains(','),
    ensures
        spec_client_ip(Some(prefix + seq![','] + last)) == spec_client_ip(Some(last)),
{
    let s = prefix + seq![','] + last;
    assert forall|j: int| prefix.len() + 1 <= j < s.len() implies s[j] != ',' by {
        assert(s[j] == last[j - prefix.len() - 1]);
    }
    lemma_after_last(s, ',', prefix.len() + 1int);
    assert(s.skip(prefix.len() + 1int) =~= last);
    assert forall|j: int| 0 <= j < last.len() implies last[j] != ',' by {}
    lemma_after_last(last, ',', 0);
    assert(last.skip(0) =~= last);
}

/// `s` without its leading and trailing white space.
pub open spec fn trim(s: Seq<char>) -> Seq<char> {
    trim_end(trim_start(s))
}

/// `s` without its leading and trailing white space.
fn trimmed(s: &str) -> (r: String)
    ensures
        r@ == trim(s@),
{
    let chars = chars_of(s);
    let n = chars.len();
    let mut a: usize = 0;
    while a < n && white_space(chars[a])
        invariant
            0 <= a <= n,
            n == chars@.len(),
            forall|j: int| 0 <= j < a ==> is_white_space(#[trigger] chars@[j]),
        decreases n - a,
    {
        a = a + 1;
    }
    let mut b: usize = n;
    while b > a && white_space(chars[b - 1])
        invariant
            a <= b <= n,
            n == chars@.len(),
            forall|j: int| b <= j < n ==> is_white_space(#[trigger] chars@[j]),
        decreases b,
    {
        b = b - 1;
    }
    proof {
        lemma_trim_start(s@, a as int);
        let rest = s@.skip(a as int);
        assert forall|j: int| b - a <= j < rest.len() implies is_white_space(#[trigger] rest[j]) by {
            assert(rest[j] == chars@[a + j]);
        }
        lemma_trim_end(rest, b - a);
        assert(rest.take(b - a) =~= chars@.subrange(a as int, b as int));
    }
    let (head, _) = chars.as_slice().split_at(b);
    let (_, mid) = head.split_at(a);
    assert(mid@ =~= chars@.subrange(a as int, b as int));
    string_of_chars(mid)
}

/// Whether two texts are the same.
fn same_text(a: &str, b: &str) -> (r: bool)
    ensures
        r == (a@ == b@),
{
    let x = chars_of(a);
    let y = chars_of(b);
    if x.len() != y.len() {
        assert(a@.len() != b@.len());
        return false;
    }
    let mut i: usize = 0;
    while i < x.len()
        invariant
            0 <= i <= x@.len(),
            x@.len() == y@.len(),
            x@ == a@,
            y@ == b@,
            forall|j: int| 0 <= j < i ==> x@[j] == y@[j],
        decreases x@.len() - i,
    {
        if x[i] != y[i] {
            assert(a@[i as int] != b@[i as int]);
            return false;
        }
        i = i + 1;
    }
    assert(x@ =~= y@);
    true
}

/// `needle` occurs somewhere in `hay`.
pub open spec fn occurs_in(needle: Seq<char>, hay: Seq<char>) -> bool {
    exists|i: int| 0 <= i <= hay.len() - needle.len() && #[trigger] hay.subrange(i, i + needle.len()) == needle
}

/// Whether `needle` occurs in `hay`.
fn find_text(hay: &str, needle: &str) -> (r: bool)
    ensures
        r == occurs_in(needle@, hay@),
{
    let h = chars_of(hay);
    let n = chars_of(needle);
    let hl = h.len();
    if n.len() > hl {
        return false;
    }
    let last = h.len() - n.len();
    let mut i: usize = 0;
    loop
        invariant
            0 <= i <= last,
            last + n@.len() == h@.len(),
            hl == h@.len(),
            h@ == hay@,
            n@ == needle@,
            forall|k: int| 0 <= k < i ==> #[trigger] h@.subrange(k, k + n@.len()) != n@,
        decreases last - i,
    {
        let mut j: usize = 0;
        while j < n.len() && h[i + j] == n[j]
            invariant
                0 <= j <= n@.len(),
                i <= last,
                last + n@.len() == h@.len(),
                hl == h@.len(),
                forall|m: int| 0 <= m < j ==> h@[i + m] == n@[m],
            decreases n@.len() - j,
        {
            j = j + 1;
        }
        if j == n.len() {
            assert(h@.subrange(i as int, i + n@.len()) =~= n@);
            return true;
        }
        assert(h@.subrange(i as int, i + n@.len())[j as int] != n@[j as int]);
        if i == last {
            return false;
        }
        i = i + 1;
    }
}

/// The value of the decimal digits `s`.
pub open spec fn digits_value(s: Seq<char>) -> nat
    decreases s.len(),
{
    if s.len() == 0 {
        0
    } else {
        digits_value(s.drop_last()) * 10 + ((s.last() as u32) - 48) as nat
    }
}

/// Every character of `s` is an ASCII digit.
pub open spec fn all_digits(s: Seq<char>) -> bool {
    forall|i: int| 0 <= i < s.len() ==> 48 <= (#[trigger] s[i] as u32) <= 57
}

/// `s` without a leading `+`.
pub open spec fn unsigned_part(s: Seq<char>) -> Seq<char> {
    if s.len() > 0 && s[0] == '+' {
        s.drop_first()
    } else {
        s
    }
}

/// A port number as `u16::from_str` reads it: an optional `+`, then one or
/// more ASCII digits, at most 65535.
pub open spec fn parse_port(s: Seq<char>) -> Option<u16> {
    let d = unsigned_part(s);
    if d.len() > 0 && all_digits(d) && digits_value(d) <= 65535 {
        Some(digits_value(d) as u16)
    } else {
        None
    }
}

proof fn lemma_digits_value_grows(s: Seq<char>, i: int)
    requires
        0 <= i <= s.len(),
        all_digits(s),
    ensures
        digits_value(s.take(i)) <= digits_value(s),
    decreases s.len() - i,
{
    if i < s.len() {
        lemma_digits_value_grows(s, i + 1);
        assert(s.take(i + 1).drop_last() =~= s.take(i));
        assert(48 <= (s[i] as u32) <= 57);
    } else {
        assert(s.take(i) =~= s);
    }
}

/// Read a port number.
fn read_port(s: &str) -> (r: Option<u16>)
    ensures
        r == parse_port(s@),
{
    let chars = chars_of(s);
    let start: usize = if chars.len() > 0 && chars[0] == '+' {
        1
    } else {
        0
    };
    let ghost d = unsigned_part(s@);
    assert(d =~= chars@.skip(start as int));
    if start == chars.len() {
        return None;
    }
    let mut k: usize = start;
    while k < chars.len()
        invariant
            start <= k <= chars@.len(),
            d == chars@.skip(start as int),
            d == unsigned_part(s@),
            forall|m: int| 0 <= m < k - start ==> 48 <= (#[trigger] d[m] as u32) <= 57,
        decreases chars@.len() - k,
    {
        let code = chars[k] as u32;
        if code < 48 || code > 57 {
            assert(d[k - start] == chars@[k as int]);
            assert(!all_digits(d));
            return None;
        }
        assert(d[k - start] == chars@[k as int]);
        k = k + 1;
    }
    assert(all_digits(d));
    let mut value: u32 = 0;
    let mut i: usize = start;
    assert(d.take(0) =~= Seq::<char>::empty());
    while i < chars.len()
        invariant
            start <= i <= chars@.len(),
            d == chars@.skip(start as int),
            d == unsigned_part(s@),
            all_digits(d),
            value <= 65535,
            value == digits_value(d.take(i - start)),
        decreases chars@.len() - i,
    {
        let code = chars[i] as u32;
        assert(d[i - start] == chars@[i as int]);
        assert(48 <= (d[i - start] as u32) <= 57);
        assert(d.take(i - start + 1).drop_last() =~= d.take(i - start));
        assert(d.take(i - start + 1).last() == chars@[i as int]);
        value = value * 10 + (code - 48);
        if value > 65535 {
            proof {
                lemma_digits_value_grows(d, i - start + 1);
            }
            return None;
        }
        i = i + 1;
    }
    assert(d.take(i - start) =~= d);
    Some(value as u16)
}

/// `s` after its last `c`.
fn text_after_last(s: &str, c: char) -> (r: String)
    ensures
        r@ == after_last(s@, c),
{
    let chars = chars_of(s);
    let mut start: usize = chars.len();
    while start > 0 && chars[start - 1] != c
        invariant
            0 <= start <= chars@.len(),
            forall|j: int| start <= j < chars@.len() ==> chars@[j] != c,
        decreases start,
    {
        start = start - 1;
    }
    proof {
        lemma_after_last(s@, c, start as int);
    }
    let (_, tail) = chars.as_slice().split_at(start);
    assert(tail@ =~= s@.skip(start as int));
    string_of_chars(tail)
}

/// The text `<str as Debug>::fmt` (std) writes for `s`: in double quotes,
/// with quotes, backslashes and control characters escaped.
pub uninterp spec fn debug_str(s: Seq<char>) -> Seq<char>;

/// `<str as Debug>::fmt` (std) of `s`.
#[verifier::external_body]
fn debug_quoted(s: &str) -> (r: String)
    ensures
        r@ == debug_str(s@),
{
    format!("{s:?}")
}

/// The settings a deployment's document is derived from, one field per
/// environment variable, `None` when it is unset.
pub struct GatewaySettings {
    /// `GATEWAY_SERVICE_HOST`: the host the four services are on.
    pub service_host: Option<String>,
    /// `GATEWAY_SERVICE_TLS`: `web-pki`, `none` or `private-ca`.
    pub service_tls: Option<String>,
    /// `GATEWAY_SERVICE_CERT`: the PEM file of trust anchors.
    pub service_cert: Option<String>,
    /// `GATEWAY_SERVICE_WS`: the WebSocket base URL, or `none`.
    pub service_ws: Option<String>,
    /// `GATEWAY_BIND`: the gateway's own listen address.
    pub bind: Option<String>,
    /// `TACENTA_DIRECTORY_PORT`.
    pub directory_port: Option<String>,
    /// `TACENTA_RELAY_PORT`.
    pub relay_port: Option<String>,
    /// `TACENTA_ACCOUNTS_PORT`.
    pub accounts_port: Option<String>,
    /// `TACENTA_PROVISIONING_PORT`.
    pub provisioning_port: Option<String>,
}

/// A setting as a value.
pub open spec fn setting(o: Option<String>) -> Option<Seq<char>> {
    match o {
        Some(v) => Some(v@),
        None => None,
    }
}

/// The settings as values.
pub struct SettingsV {
    pub service_host: Option<Seq<char>>,
    pub service_tls: Option<Seq<char>>,
    pub service_cert: Option<Seq<char>>,
    pub service_ws: Option<Seq<char>>,
    pub bind: Option<Seq<char>>,
    pub directory_port: Option<Seq<char>>,
    pub relay_port: Option<Seq<char>>,
    pub accounts_port: Option<Seq<char>>,
    pub provisioning_port: Option<Seq<char>>,
}

impl View for GatewaySettings {
    type V = SettingsV;

    open spec fn view(&self) -> SettingsV {
        SettingsV {
            service_host: setting(self.service_host),
            service_tls: setting(self.service_tls),
            service_cert: setting(self.service_cert),
            service_ws: setting(self.service_ws),
            bind: setting(self.bind),
            directory_port: setting(self.directory_port),
            relay_port: setting(self.relay_port),
            accounts_port: setting(self.accounts_port),
            provisioning_port: setting(self.provisioning_port),
        }
    }
}

/// Why the settings name no document.
#[derive(Debug, Clone, PartialEq, Eq)]
pub enum DocumentError {
    /// `private-ca` was asked for without `GATEWAY_SERVICE_CERT`.
    CertUnnamed,
    /// The PEM file named holds no certificate.
    NoCertificate { path: String },
    /// `GATEWAY_SERVICE_TLS` holds none of the three modes.
    TlsMode { value: String },
    /// A TLS mode was asked for a host that is an address, not a name.
    AddressNeedsName { host: String, tls: Tls },
    /// A port setting does not hold a port number.
    Port { name: String, value: String },
}

/// A refusal as a value.
pub enum DocumentErrorV {
    CertUnnamed,
    NoCertificate { path: Seq<char> },
    TlsMode { value: Seq<char> },
    AddressNeedsName { host: Seq<char>, tls: TlsV },
    Port { name: Seq<char>, value: Seq<char> },
}

impl View for DocumentError {
    type V = DocumentErrorV;

    open spec fn view(&self) -> DocumentErrorV {
        match self {
            DocumentError::CertUnnamed => DocumentErrorV::CertUnnamed,
            DocumentError::NoCertificate { path } => DocumentErrorV::NoCertificate { path: path@ },
            DocumentError::TlsMode { value } => DocumentErrorV::TlsMode { value: value@ },
            DocumentError::AddressNeedsName { host, tls } => DocumentErrorV::AddressNeedsName {
                host: host@,
                tls: tls@,
            },
            DocumentError::Port { name, value } => DocumentErrorV::Port { name: name@, value: value@ },
        }
    }
}

/// The wire name of a trust mode.
pub open spec fn tls_name(t: TlsV) -> Seq<char> {
    match t {
        TlsV::Plaintext => "none"@,
        TlsV::WebPki => "web-pki"@,
        TlsV::PrivateCa(_) => "private-ca"@,
    }
}

/// The message a refusal is reported with.
pub open spec fn document_error_message(e: DocumentErrorV) -> Seq<char> {
    match e {
        DocumentErrorV::CertUnnamed => "GATEWAY_SERVICE_TLS is private-ca; GATEWAY_SERVICE_CERT must name the PEM"@,
        DocumentErrorV::NoCertificate { path } => "GATEWAY_SERVICE_CERT "@ + path + ": no certificate in the PEM"@,
        DocumentErrorV::TlsMode { value } => "GATEWAY_SERVICE_TLS is "@ + debug_str(value)
            + "; it must be `web-pki` or `none`"@,
        DocumentErrorV::AddressNeedsName { host, tls } => "GATEWAY_SERVICE_HOST is the address "@ + host + "; "@
            + tls_name(tls) + " trust needs the name on the certificate"@,
        DocumentErrorV::Port { name, value } => name + " is "@ + debug_str(value) + "; it must be a port number"@,
    }
}

impl DocumentError {
    /// The message the refusal is reported with.
    pub fn message(&self) -> (m: String)
        ensures
            m@ == document_error_message(self@),
    {
        match self {
            DocumentError::CertUnnamed => String::from_str(
                "GATEWAY_SERVICE_TLS is private-ca; GATEWAY_SERVICE_CERT must name the PEM",
            ),
            DocumentError::NoCertificate { path } => {
                let mut m = String::from_str("GATEWAY_SERVICE_CERT ");
                m.append(path.as_str());
                m.append(": no certificate in the PEM");
                m
            },
            DocumentError::TlsMode { value } => {
                let mut m = String::from_str("GATEWAY_SERVICE_TLS is ");
                m.append(debug_quoted(value.as_str()).as_str());
                m.append("; it must be `web-pki` or `none`");
                m
            },
            DocumentError::AddressNeedsName { host, tls } => {
                let mut m = String::from_str("GATEWAY_SERVICE_HOST is the address ");
                m.append(host.as_str());
                m.append("; ");
                m.append(tls.wire_name());
                m.append(" trust needs the name on the certificate");
                proof {
                    reveal_strlit("none");
                    reveal_strlit("web-pki");
                    reveal_strlit("private-ca");
                }
                m
            },
            DocumentError::Port { name, value } => {
                let mut m = name.clone();
                m.append(" is ");
                m.append(debug_quoted(value.as_str()).as_str());
                m.append("; it must be a port number");
                m
            },
        }
    }
}

/// The host the document names: `GATEWAY_SERVICE_HOST` trimmed, when it is
/// set and not blank.
pub open spec fn named_host(s: SettingsV) -> Option<Seq<char>> {
    match s.service_host {
        Some(h) => if trim(h).len() == 0 {
            None
        } else {
            Some(trim(h))
        },
        None => None,
    }
}

/// The host the document names, `127.0.0.1` when none is set.
pub open spec fn published_host_of(s: SettingsV) -> Seq<char> {
    match named_host(s) {
        Some(h) => h,
        None => "127.0.0.1"@,
    }
}

/// The trust mode the settings ask for; `pem` is the content of the file
/// `GATEWAY_SERVICE_CERT` names, when it was read.
pub open spec fn spec_trust(s: SettingsV, pem: Option<Seq<char>>) -> Result<TlsV, DocumentErrorV> {
    match s.service_tls {
        Some(v) => if v == "web-pki"@ {
            Ok(TlsV::WebPki)
        } else if v == "none"@ {
            Ok(TlsV::Plaintext)
        } else if v == "private-ca"@ {
            match s.service_cert {
                None => Err(DocumentErrorV::CertUnnamed),
                Some(path) => match pem {
                    Some(p) => if occurs_in("-----BEGIN CERTIFICATE-----"@, p) {
                        Ok(TlsV::PrivateCa(p))
                    } else {
                        Err(DocumentErrorV::NoCertificate { path })
                    },
                    None => Err(DocumentErrorV::NoCertificate { path }),
                },
            }
        } else {
            Err(DocumentErrorV::TlsMode { value: v })
        },
        None => if named_host(s) is Some {
            Ok(TlsV::WebPki)
        } else {
            Ok(TlsV::Plaintext)
        },
    }
}

/// A port setting: the default when unset, the number it holds, or a
/// refusal naming it.
pub open spec fn spec_port(name: Seq<char>, v: Option<Seq<char>>, default: u16) -> Result<u16, DocumentErrorV> {
    match v {
        None => Ok(default),
        Some(v) => match parse_port(trim(v)) {
            Some(p) => Ok(p),
            None => Err(DocumentErrorV::Port { name, value: v }),
        },
    }
}

/// The WebSocket base URL the document offers: the one named, none when
/// `none` is named, `wss://{host}/v1/ws` for a host with TLS, none for a
/// named host without TLS, and the loopback gateway's own port otherwise.
pub open spec fn spec_carriage(s: SettingsV, host: Seq<char>, tls: TlsV) -> Option<Seq<char>> {
    let given = match s.service_ws {
        Some(w) => Some(trim(w)),
        None => None,
    };
    if given == Some("none"@) {
        None
    } else if given is Some && given->0.len() > 0 {
        given
    } else if !(tls is Plaintext) {
        Some("wss://"@ + host + "/v1/ws"@)
    } else if named_host(s) is Some {
        None
    } else {
        let bind = match s.bind {
            Some(b) => b,
            None => "0.0.0.0:4780"@,
        };
        Some("ws://127.0.0.1:"@ + after_last(bind, ':') + "/v1/ws"@)
    }
}

/// The document the settings publish. `host_is_address` is whether the
/// published host reads as an IP address; a TLS mode needs a name.
pub open spec fn spec_service_document(s: SettingsV, pem: Option<Seq<char>>, host_is_address: bool) -> Result<
    ServiceDocumentV,
    DocumentErrorV,
> {
    match spec_trust(s, pem) {
        Err(e) => Err(e),
        Ok(tls) => {
            let host = published_host_of(s);
            if !(tls is Plaintext) && host_is_address {
                Err(DocumentErrorV::AddressNeedsName { host, tls })
            } else {
                match spec_port("TACENTA_DIRECTORY_PORT"@, s.directory_port, 4720) {
                    Err(e) => Err(e),
                    Ok(p0) => match spec_port("TACENTA_RELAY_PORT"@, s.relay_port, 4721) {
                        Err(e) => Err(e),
                        Ok(p1) => match spec_port("TACENTA_ACCOUNTS_PORT"@, s.accounts_port, 4722) {
                            Err(e) => Err(e),
                            Ok(p2) => match spec_port("TACENTA_PROVISIONING_PORT"@, s.provisioning_port, 4723) {
                                Err(e) => Err(e),
                                Ok(p3) => {
                                    let doc = spec_on(host, host, seq![p0, p1, p2, p3], tls);
                                    Ok(
                                        match spec_carriage(s, host, tls) {
                                            Some(w) => ServiceDocumentV { ws: Some(trim_trailing_slashes(w)), ..doc },
                                            None => doc,
                                        },
                                    )
                                },
                            },
                        },
                    },
                }
            }
        },
    }
}

/// The host the document names, `127.0.0.1` when none is set: the host
/// whose reading as an address [`service_document`] is told.
pub fn published_host(settings: &GatewaySettings) -> (h: String)
    ensures
        h@ == published_host_of(settings@),
{
    match &settings.service_host {
        Some(h) => {
            let t = trimmed(h.as_str());
            if t.as_str().unicode_len() == 0 {
                String::from_str("127.0.0.1")
            } else {
                t
            }
        },
        None => String::from_str("127.0.0.1"),
    }
}

/// The trust mode the settings ask for.
fn trust(settings: &GatewaySettings, pem: Option<&str>) -> (r: Result<Tls, DocumentError>)
    ensures
        match r {
            Ok(t) => spec_trust(settings@, setting_str(pem)) == Ok::<TlsV, DocumentErrorV>(t@),
            Err(e) => spec_trust(settings@, setting_str(pem)) == Err::<TlsV, DocumentErrorV>(e@),
        },
{
    match &settings.service_tls {
        Some(v) => {
            if same_text(v.as_str(), "web-pki") {
                Ok(Tls::WebPki)
            } else if same_text(v.as_str(), "none") {
                Ok(Tls::Plaintext)
            } else if same_text(v.as_str(), "private-ca") {
                match &settings.service_cert {
                    None => Err(DocumentError::CertUnnamed),
                    Some(path) => match pem {
                        Some(p) => {
                            if find_text(p, "-----BEGIN CERTIFICATE-----") {
                                Ok(Tls::PrivateCa { trust_anchors_pem: p.to_owned() })
                            } else {
                                Err(DocumentError::NoCertificate { path: path.clone() })
                            }
                        },
                        None => Err(DocumentError::NoCertificate { path: path.clone() }),
                    },
                }
            } else {
                Err(DocumentError::TlsMode { value: v.clone() })
            }
        },
        None => {
            let named = match &settings.service_host {
                Some(h) => trimmed(h.as_str()).as_str().unicode_len() > 0,
                None => false,
            };
            if named {
                Ok(Tls::WebPki)
            } else {
                Ok(Tls::Plaintext)
            }
        },
    }
}

/// An optional text as a value.
pub open spec fn setting_str(o: Option<&str>) -> Option<Seq<char>> {
    match o {
        Some(v) => Some(v@),
        None => None,
    }
}

/// A port setting.
fn port(name: &str, v: &Option<String>, default: u16) -> (r: Result<u16, DocumentError>)
    ensures
        match r {
            Ok(p) => spec_port(name@, setting(*v), default) == Ok::<u16, DocumentErrorV>(p),
            Err(e) => spec_port(name@, setting(*v), default) == Err::<u16, DocumentErrorV>(e@),
        },
{
    match v {
        None => Ok(default),
        Some(v) => {
            let t = trimmed(v.as_str());
            match read_port(t.as_str()) {
                Some(p) => Ok(p),
                None => Err(DocumentError::Port { name: name.to_owned(), value: v.clone() }),
            }
        },
    }
}

/// The WebSocket base URL the document offers.
fn carriage(settings: &GatewaySettings, host: &str, tls: &Tls) -> (w: Option<String>)
    ensures
        setting(w) == spec_carriage(settings@, host@, tls@),
{
    let given = match &settings.service_ws {
        Some(w) => Some(trimmed(w.as_str())),
        None => None,
    };
    proof {
        reveal_strlit("none");
    }
    let is_none = match &given {
        Some(g) => same_text(g.as_str(), "none"),
        None => false,
    };
    if is_none {
        assert(setting(given) == Some("none"@));
        return None;
    }
    let nonempty = match &given {
        Some(g) => g.as_str().unicode_len() > 0,
        None => false,
    };
    if nonempty {
        return given;
    }
    let plaintext = match tls {
        Tls::Plaintext => true,
        _ => false,
    };
    if !plaintext {
        let mut w = String::from_str("wss://");
        w.append(host);
        w.append("/v1/ws");
        return Some(w);
    }
    let named = match &settings.service_host {
        Some(h) => trimmed(h.as_str()).as_str().unicode_len() > 0,
        None => false,
    };
    if named {
        return None;
    }
    let port = match &settings.bind {
        Some(b) => text_after_last(b.as_str(), ':'),
        None => text_after_last("0.0.0.0:4780", ':'),
    };
    let mut w = String::from_str("ws://127.0.0.1:");
    w.append(port.as_str());
    w.append("/v1/ws");
    Some(w)
}

/// The document a deployment publishes, from its settings, with no silent
/// default that names some other server. `pem` is the content of the file
/// `GATEWAY_SERVICE_CERT` names, read when `private-ca` is asked for;
/// `host_is_address` is whether [`published_host`] reads as an IP address.
pub fn service_document(settings: &GatewaySettings, pem: Option<&str>, host_is_address: bool) -> (r: Result<
    ServiceDocument,
    DocumentError,
>)
    ensures
        match r {
            Ok(d) => spec_service_document(settings@, setting_str(pem), host_is_address) == Ok::<
                ServiceDocumentV,
                DocumentErrorV,
            >(d@),
            Err(e) => spec_service_document(settings@, setting_str(pem), host_is_address) == Err::<
                ServiceDocumentV,
                DocumentErrorV,
            >(e@),
        },
{
    let tls = match trust(settings, pem) {
        Ok(t) => t,
        Err(e) => {
            return Err(e);
        },
    };
    let host = published_host(settings);
    let plaintext = match &tls {
        Tls::Plaintext => true,
        _ => false,
    };
    if !plaintext && host_is_address {
        return Err(DocumentError::AddressNeedsName { host, tls });
    }
    let p0 = match port("TACENTA_DIRECTORY_PORT", &settings.directory_port, DEFAULT_PORTS[0]) {
        Ok(p) => p,
        Err(e) => {
            return Err(e);
        },
    };
    let p1 = match port("TACENTA_RELAY_PORT", &settings.relay_port, DEFAULT_PORTS[1]) {
        Ok(p) => p,
        Err(e) => {
            return Err(e);
        },
    };
    let p2 = match port("TACENTA_ACCOUNTS_PORT", &settings.accounts_port, DEFAULT_PORTS[2]) {
        Ok(p) => p,
        Err(e) => {
            return Err(e);
        },
    };
    let p3 = match port("TACENTA_PROVISIONING_PORT", &settings.provisioning_port, DEFAULT_PORTS[3]) {
        Ok(p) => p,
        Err(e) => {
            return Err(e);
        },
    };
    let ws = carriage(settings, host.as_str(), &tls);
    let doc = ServiceDocument::on(host.as_str(), host.as_str(), [p0, p1, p2, p3], tls);
    assert([p0, p1, p2, p3]@ =~= seq![p0, p1, p2, p3]);
    match ws {
        Some(w) => Ok(doc.with_ws(w.as_str())),
        None => Ok(doc),
    }
}

/// A TLS mode other than `web-pki`, `none` and `private-ca` is refused, not
/// guessed: whatever else the settings say.
pub proof fn law_an_unknown_tls_mode_is_refused(s: SettingsV, pem: Option<Seq<char>>, host_is_address: bool, v: Seq<char>)
    requires
        s.service_tls == Some(v),
        v != "web-pki"@,
        v != "none"@,
        v != "private-ca"@,
    ensures
        spec_service_document(s, pem, host_is_address) == Err::<ServiceDocumentV, DocumentErrorV>(
            DocumentErrorV::TlsMode { value: v },
        ),
{
}

/// A document that asks for TLS names its host, never an address: a host
/// that reads as an address is refused unless TLS is off.
pub proof fn law_tls_needs_a_name(s: SettingsV, pem: Option<Seq<char>>)
    ensures
        spec_service_document(s, pem, true) is Ok ==> spec_service_document(s, pem, true)->Ok_0.tls is Plaintext,
{
}

/// Without a host set, the document names the loopback address and no
/// other server.
pub proof fn law_without_a_host_the_document_is_loopback(s: SettingsV, pem: Option<Seq<char>>, host_is_address: bool)
    requires
        s.service_host is None,
        spec_service_document(s, pem, host_is_address) is Ok,
    ensures
        spec_service_document(s, pem, host_is_address)->Ok_0.server_name == "127.0.0.1"@,
{
}

/// Where the gateway itself dials the four services for the WebSocket
/// carriage: the document's addresses, with the host replaced by an internal
/// name when one is given.
pub struct Upstream {
    pub directory: String,
    pub relay: String,
    pub accounts: String,
    pub provisioning: String,
}

/// Where the gateway dials one service: the document's entry, or `host` (in
/// brackets when it holds a `:`) at the entry's port.
pub open spec fn dial_at(entry: Seq<char>, host: Option<Seq<char>>) -> Seq<char> {
    match host {
        Some(h) => {
            let named = if h.contains(':') {
                seq!['['] + h + seq![']']
            } else {
                h
            };
            named + seq![':'] + after_last(entry, ':')
        },
        None => entry,
    }
}

/// Where the gateway dials one service.
fn dial_address(entry: &str, host: Option<&str>) -> (r: String)
    ensures
        r@ == dial_at(entry@, setting_str(host)),
{
    match host {
        Some(h) => {
            let chars = chars_of(h);
            let mut has_colon = false;
            let mut i: usize = 0;
            while i < chars.len()
                invariant
                    0 <= i <= chars@.len(),
                    chars@ == h@,
                    has_colon == (exists|j: int| 0 <= j < i && chars@[j] == ':'),
                decreases chars@.len() - i,
            {
                if chars[i] == ':' {
                    has_colon = true;
                }
                i = i + 1;
            }
            assert(has_colon == h@.contains(':'));
            let mut out = String::new();
            if has_colon {
                crate::text::push_char(&mut out, '[');
                out.append(h);
                crate::text::push_char(&mut out, ']');
            } else {
                out.append(h);
            }
            crate::text::push_char(&mut out, ':');
            let port = text_after_last(entry, ':');
            out.append(port.as_str());
            proof {
                if has_colon {
                    assert(out@ =~= seq!['['] + h@ + seq![']'] + seq![':'] + after_last(entry@, ':'));
                } else {
                    assert(out@ =~= h@ + seq![':'] + after_last(entry@, ':'));
                }
            }
            out
        },
        None => entry.to_owned(),
    }
}

impl Upstream {
    /// The upstream a document implies, dialling `host` instead of the
    /// document's hosts when given.
    pub fn from_document(doc: &ServiceDocument, host: Option<&str>) -> (u: Upstream)
        ensures
            u.directory@ == dial_at(doc@.directory, setting_str(host)),
            u.relay@ == dial_at(doc@.relay, setting_str(host)),
            u.accounts@ == dial_at(doc@.accounts, setting_str(host)),
            u.provisioning@ == dial_at(doc@.provisioning, setting_str(host)),
    {
        Upstream {
            directory: dial_address(doc.directory.as_str(), host),
            relay: dial_address(doc.relay.as_str(), host),
            accounts: dial_address(doc.accounts.as_str(), host),
            provisioning: dial_address(doc.provisioning.as_str(), host),
        }
    }

    /// Where to dial the named service, `None` for a name that is not one of
    /// the four.
    pub fn address(&self, service: &str) -> (a: Option<&str>)
        ensures
            match a {
                Some(x) => (service@ == "directory"@ && x@ == self.directory@) || (service@ == "relay"@ && x@
                    == self.relay@) || (service@ == "accounts"@ && x@ == self.accounts@) || (service@
                    == "provisioning"@ && x@ == self.provisioning@),
                None => service@ != "directory"@ && service@ != "relay"@ && service@ != "accounts"@ && service@
                    != "provisioning"@,
            },
    {
        if same_text(service, "directory") {
            Some(self.directory.as_str())
        } else if same_text(service, "relay") {
            Some(self.relay.as_str())
        } else if same_text(service, "accounts") {
            Some(self.accounts.as_str())
        } else if same_text(service, "provisioning") {
            Some(self.provisioning.as_str())
        } else {
            None
        }
    }
}

} // verus!
