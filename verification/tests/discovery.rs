use tacenta::discovery::{host_of, ServiceDocument, Tls, DEFAULT_PORTS, VERSION, WELL_KNOWN_PATH};

#[test]
fn hosts_are_read_back_from_entries() {
    assert_eq!(host_of("tacenta.com:4720"), "tacenta.com");
    assert_eq!(host_of("[::1]:4720"), "::1");
    assert_eq!(host_of("127.0.0.1:4720"), "127.0.0.1");
    let doc = ServiceDocument::on("::1", "::1", [1, 2, 3, 4], Tls::Plaintext);
    assert_eq!(doc.relay, "[::1]:2");
    assert_eq!(host_of(&doc.relay), "::1");
}

#[test]
fn the_hosted_document_names_the_default_ports_over_web_pki() {
    let doc = ServiceDocument::hosted("tacenta.com");
    assert_eq!(doc.version, VERSION);
    assert_eq!(doc.server_name, "tacenta.com");
    assert_eq!(doc.directory, "tacenta.com:4720");
    assert_eq!(doc.relay, "tacenta.com:4721");
    assert_eq!(doc.accounts, "tacenta.com:4722");
    assert_eq!(doc.provisioning, "tacenta.com:4723");
    assert_eq!(doc.tls, Tls::WebPki);
    assert_eq!(doc.ws, None);
    assert_eq!(doc.endpoints(), ["tacenta.com:4720", "tacenta.com:4721", "tacenta.com:4722", "tacenta.com:4723"]);
    assert_eq!(DEFAULT_PORTS, [4720, 4721, 4722, 4723]);
    assert_eq!(WELL_KNOWN_PATH, "/.well-known/tacenta");
}

#[test]
fn the_websocket_carriage_is_offered_without_a_trailing_slash() {
    let with_ws = ServiceDocument::hosted("tacenta.com").with_ws("wss://tacenta.com/v1/ws/");
    assert_eq!(with_ws.ws.as_deref(), Some("wss://tacenta.com/v1/ws"));
    assert_eq!(with_ws.ws_url("relay").as_deref(), Some("wss://tacenta.com/v1/ws/relay"));
    assert_eq!(ServiceDocument::hosted("x").ws_url("relay"), None);
    let doc = ServiceDocument::local("127.0.0.1").with_ws("ws://127.0.0.1:4780/v1/ws//");
    assert_eq!(doc.ws.as_deref(), Some("ws://127.0.0.1:4780/v1/ws"));
    assert_eq!(doc.tls, Tls::Plaintext);
}

#[test]
fn ports_are_written_in_decimal_and_hosts_bracketed_once() {
    let doc = ServiceDocument::on("[::1]", "h", [0, 9, 10, 65535], Tls::Plaintext);
    assert_eq!(doc.directory, "[::1]:0");
    assert_eq!(doc.relay, "[::1]:9");
    assert_eq!(doc.accounts, "[::1]:10");
    assert_eq!(doc.provisioning, "[::1]:65535");
    assert_eq!(doc.server_name, "h");
    assert_eq!(host_of("no-port"), "no-port");
    assert_eq!(host_of("[::1"), "::1");
}

#[test]
fn the_trust_modes_have_stable_names() {
    assert_eq!(Tls::Plaintext.wire_name(), "none");
    assert_eq!(Tls::WebPki.wire_name(), "web-pki");
    let private = Tls::PrivateCa { trust_anchors_pem: "-----BEGIN CERTIFICATE-----\n".into() };
    assert_eq!(private.wire_name(), "private-ca");
}
