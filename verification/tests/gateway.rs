use tacenta::gateway::client_ip;

#[test]
fn a_client_supplied_prefix_cannot_choose_the_bucket() {
    let spoofed = client_ip(Some("192.0.2.4, 203.0.113.7"));
    let also_spoofed = client_ip(Some("192.0.2.9, 203.0.113.7"));
    assert_eq!(spoofed, also_spoofed, "varying the prepended value must not change the bucket");
    assert_eq!(spoofed, "203.0.113.7", "the proxy-appended value is the one");
}

#[test]
fn a_single_element_is_used_as_is() {
    assert_eq!(client_ip(Some("203.0.113.7")), "203.0.113.7");
}

#[test]
fn a_missing_header_falls_back_to_a_shared_bucket() {
    assert_eq!(client_ip(None), "shared");
}

#[test]
fn an_empty_last_element_falls_back_to_the_shared_bucket() {
    assert_eq!(client_ip(Some("203.0.113.7, ")), "shared");
    assert_eq!(client_ip(Some("")), "shared");
    assert_eq!(client_ip(Some("\t 198.51.100.2 \u{a0}")), "198.51.100.2");
}

use tacenta::discovery::{ServiceDocument, Tls};
use tacenta::gateway::{published_host, service_document, DocumentError, GatewaySettings};

/// Whether a host is written as an IP address, for the inputs below: dotted
/// decimal, or an IPv6 form with colons.
fn looks_like_an_address(host: &str) -> bool {
    host.contains(':') || (!host.is_empty() && host.chars().all(|c| c.is_ascii_digit() || c == '.'))
}

fn settings(vars: &[(&str, &str)]) -> GatewaySettings {
    let get = |name: &str| vars.iter().find(|(k, _)| *k == name).map(|(_, v)| v.to_string());
    GatewaySettings {
        service_host: get("GATEWAY_SERVICE_HOST"),
        service_tls: get("GATEWAY_SERVICE_TLS"),
        service_cert: get("GATEWAY_SERVICE_CERT"),
        service_ws: get("GATEWAY_SERVICE_WS"),
        bind: get("GATEWAY_BIND"),
        directory_port: get("TACENTA_DIRECTORY_PORT"),
        relay_port: get("TACENTA_RELAY_PORT"),
        accounts_port: get("TACENTA_ACCOUNTS_PORT"),
        provisioning_port: get("TACENTA_PROVISIONING_PORT"),
    }
}

fn with_pem(vars: &[(&str, &str)], pem: Option<&str>) -> Result<ServiceDocument, String> {
    let s = settings(vars);
    let address = looks_like_an_address(&published_host(&s));
    service_document(&s, pem, address).map_err(|e: DocumentError| e.message())
}

fn with(vars: &[(&str, &str)]) -> Result<ServiceDocument, String> {
    with_pem(vars, None)
}

#[test]
fn no_environment_is_a_loopback_development_document() {
    assert_eq!(with(&[]).unwrap(), ServiceDocument::local("127.0.0.1").with_ws("ws://127.0.0.1:4780/v1/ws"));
    let doc = with(&[("GATEWAY_BIND", "127.0.0.1:9000")]).unwrap();
    assert_eq!(doc.ws.as_deref(), Some("ws://127.0.0.1:9000/v1/ws"));
}

#[test]
fn a_named_host_is_web_pki_unless_told_otherwise() {
    let doc = with(&[("GATEWAY_SERVICE_HOST", "chat.example.org")]).unwrap();
    assert_eq!(doc, ServiceDocument::hosted("chat.example.org").with_ws("wss://chat.example.org/v1/ws"));
    let doc = with(&[("GATEWAY_SERVICE_HOST", "10.0.0.5"), ("GATEWAY_SERVICE_TLS", "none")]).unwrap();
    assert_eq!(doc.tls, Tls::Plaintext);
    assert_eq!(doc.accounts, "10.0.0.5:4722");
    assert_eq!(doc.ws, None);
}

#[test]
fn the_websocket_carriage_can_be_named_or_withheld() {
    let doc = with(&[
        ("GATEWAY_SERVICE_HOST", "chat.example.org"),
        ("GATEWAY_SERVICE_WS", "wss://ws.chat.example.org/v1/ws/"),
    ])
    .unwrap();
    assert_eq!(doc.ws.as_deref(), Some("wss://ws.chat.example.org/v1/ws"));
    let doc = with(&[("GATEWAY_SERVICE_HOST", "chat.example.org"), ("GATEWAY_SERVICE_WS", "none")]).unwrap();
    assert_eq!(doc.ws, None);
}

#[test]
fn a_private_ca_is_taken_from_its_pem() {
    let vars = [
        ("GATEWAY_SERVICE_HOST", "chat.example"),
        ("GATEWAY_SERVICE_TLS", "private-ca"),
        ("GATEWAY_SERVICE_CERT", "/etc/tacenta/ca.pem"),
    ];
    let doc = with_pem(&vars, Some("-----BEGIN CERTIFICATE-----\nAAAA\n-----END CERTIFICATE-----\n")).unwrap();
    assert!(matches!(doc.tls, Tls::PrivateCa { ref trust_anchors_pem } if trust_anchors_pem.contains("AAAA")));
    assert_eq!(doc.tls.wire_name(), "private-ca");
    let err = with(&[("GATEWAY_SERVICE_HOST", "chat.example"), ("GATEWAY_SERVICE_TLS", "private-ca")]).unwrap_err();
    assert!(err.contains("GATEWAY_SERVICE_CERT"), "{err}");
    let err = with_pem(&vars, Some("not a certificate")).unwrap_err();
    assert!(err.contains("no certificate"), "{err}");
    assert_eq!(err, "GATEWAY_SERVICE_CERT /etc/tacenta/ca.pem: no certificate in the PEM");
}

#[test]
fn a_typo_in_the_tls_mode_is_refused_not_guessed() {
    for bad in ["off", "NONE", "false", "web_pki", ""] {
        let err = with(&[("GATEWAY_SERVICE_HOST", "chat.example.org"), ("GATEWAY_SERVICE_TLS", bad)]).unwrap_err();
        assert!(err.contains("GATEWAY_SERVICE_TLS"), "{bad:?}: {err}");
    }
    let err = with(&[("GATEWAY_SERVICE_TLS", "off")]).unwrap_err();
    assert_eq!(err, "GATEWAY_SERVICE_TLS is \"off\"; it must be `web-pki` or `none`");
}

#[test]
fn web_pki_needs_a_name_not_an_address() {
    let err = with(&[("GATEWAY_SERVICE_HOST", "203.0.113.7")]).unwrap_err();
    assert!(err.contains("certificate"), "{err}");
    assert_eq!(err, "GATEWAY_SERVICE_HOST is the address 203.0.113.7; web-pki trust needs the name on the certificate");
}

#[test]
fn the_ports_follow_the_servers_own_settings() {
    let doc = with(&[("GATEWAY_SERVICE_HOST", "chat.example.org"), ("TACENTA_RELAY_PORT", "5721")]).unwrap();
    assert_eq!(doc.relay, "chat.example.org:5721");
    assert_eq!(doc.accounts, "chat.example.org:4722");
    let err = with(&[("TACENTA_RELAY_PORT", "lots")]).unwrap_err();
    assert!(err.contains("TACENTA_RELAY_PORT"), "{err}");
    assert_eq!(err, "TACENTA_RELAY_PORT is \"lots\"; it must be a port number");
    let doc = with(&[("TACENTA_ACCOUNTS_PORT", " +80 ")]).unwrap();
    assert_eq!(doc.accounts, "127.0.0.1:80");
    assert!(with(&[("TACENTA_ACCOUNTS_PORT", "65536")]).is_err());
    assert!(with(&[("TACENTA_ACCOUNTS_PORT", "-1")]).is_err());
    assert!(with(&[("TACENTA_ACCOUNTS_PORT", "+")]).is_err());
}

use tacenta::gateway::Upstream;

#[test]
fn the_upstream_follows_the_document_with_an_internal_host() {
    let doc = ServiceDocument::hosted("tacenta.example");
    let up = Upstream::from_document(&doc, Some("server"));
    assert_eq!(up.address("relay"), Some("server:4721"));
    assert_eq!(up.address("provisioning"), Some("server:4723"));
    assert_eq!(up.address("mailbox"), None);
    assert_eq!(up.directory, "server:4720");
    let up = Upstream::from_document(&ServiceDocument::local("127.0.0.1"), None);
    assert_eq!(up.address("accounts"), Some("127.0.0.1:4722"));
    let up = Upstream::from_document(&doc, Some("::1"));
    assert_eq!(up.address("directory"), Some("[::1]:4720"));
}
