use zapper::endpoint::{parse_https_endpoint, EndpointError};

fn parsed(endpoint: &str) -> (String, u16, String) {
    match parse_https_endpoint(endpoint) {
        Ok(e) => (e.host, e.port, e.path),
        Err(e) => panic!("{}", e.message(endpoint)),
    }
}

fn parts(host: &str, port: u16, path: &str) -> (String, u16, String) {
    (host.to_string(), port, path.to_string())
}

fn message(endpoint: &str) -> String {
    match parse_https_endpoint(endpoint) {
        Ok(_) => panic!("accepted {}", endpoint),
        Err(e) => e.message(endpoint),
    }
}

#[test]
fn port_and_path_are_optional() {
    assert_eq!(parsed("https://notes.local"), parts("notes.local", 443, "/search"));
    assert_eq!(parsed("https://notes.local/"), parts("notes.local", 443, "/search"));
    assert_eq!(parsed("https://notes.local/find"), parts("notes.local", 443, "/find"));
}

#[test]
fn endpoint_is_read_back() {
    assert_eq!(parsed("https://10.0.0.2:8765/search"), parts("10.0.0.2", 8765, "/search"));
    assert_eq!(parsed("https://h:0/a/b:c"), parts("h", 0, "/a/b:c"));
    assert_eq!(parsed("https://[::1]:65535/"), parts("[::1]", 65535, "/search"));
    assert_eq!(parsed("https://h:+80"), parts("h", 80, "/search"));
}

#[test]
fn only_https_is_supported() {
    assert_eq!(
        message("http://h"),
        "only https:// zapper endpoints are supported: http://h"
    );
    assert!(matches!(parse_https_endpoint("h:1"), Err(EndpointError::NotHttps)));
}

#[test]
fn port_must_be_a_number() {
    assert_eq!(message("https://h:port/"), "invalid endpoint port");
    assert!(matches!(
        parse_https_endpoint("https://h:65536"),
        Err(EndpointError::InvalidPort(p)) if p == "65536"
    ));
    assert!(matches!(
        parse_https_endpoint("https://h:"),
        Err(EndpointError::InvalidPort(p)) if p.is_empty()
    ));
    // The port is looked at before the host.
    assert!(matches!(parse_https_endpoint("https://:x"), Err(EndpointError::InvalidPort(_))));
}

#[test]
fn host_must_not_be_empty() {
    assert_eq!(message("https://"), "endpoint host is empty: https://");
    assert!(matches!(parse_https_endpoint("https://:80/x"), Err(EndpointError::EmptyHost)));
}

#[test]
fn address_names_host_and_port() {
    let e = parse_https_endpoint("https://h/x").ok().unwrap();
    assert_eq!(e.address(), "h:443");
}
