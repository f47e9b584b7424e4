use zapper::config::{
    choose_index, choose_root, resolve_remotes, resolve_serve, RemoteConfig, RemoteOptionsError,
    ServeOptionsError, ZapConfig,
};
use zapper::places::{config_path_in, default_config_path, default_index_path, index_path_in};
use zapper::tls::{
    load_certificates, load_private_key, load_root_store, load_server_certificates,
    require_certificates, require_private_key, server_name, trust_certificates, KeyKind, TlsError,
};

fn strings(list: &[&str]) -> Vec<String> {
    list.iter().map(|s| s.to_string()).collect()
}

fn paths(list: &[&str]) -> Vec<Vec<u8>> {
    list.iter().map(|s| s.as_bytes().to_vec()).collect()
}

fn configured() -> ZapConfig {
    ZapConfig {
        remotes: Some(vec![RemoteConfig {
            endpoint: "https://desk".to_string(),
            token: "c".to_string(),
            host: Some("desk".to_string()),
            ca_cert: Some(b"/ca".to_vec()),
        }]),
        ..ZapConfig::default()
    }
}

#[test]
fn configured_remotes_come_first() {
    let remotes = resolve_remotes(&configured(), strings(&["https://a"]), strings(&["t"]), Vec::new())
        .ok()
        .unwrap();
    assert_eq!(remotes.len(), 2);
    assert_eq!(remotes[0].endpoint, "https://desk");
    assert_eq!(remotes[0].host.as_deref(), Some("desk"));
    assert_eq!(remotes[0].ca_cert, Some(b"/ca".to_vec()));
    assert_eq!((remotes[1].endpoint.as_str(), remotes[1].token.as_str()), ("https://a", "t"));
    assert!(remotes[1].host.is_none() && remotes[1].ca_cert.is_none());
    let alone = resolve_remotes(&configured(), Vec::new(), strings(&["x", "y"]), Vec::new()).ok().unwrap();
    assert_eq!(alone.len(), 1);
    assert!(resolve_remotes(&ZapConfig::default(), Vec::new(), Vec::new(), Vec::new()).ok().unwrap().is_empty());
}

#[test]
fn tokens_and_certificates_go_to_their_remotes() {
    let remotes = resolve_remotes(
        &ZapConfig::default(),
        strings(&["a", "b"]),
        strings(&["t", "u"]),
        paths(&["/x", "/y"]),
    )
    .ok()
    .unwrap();
    let seen: Vec<(&str, &str, Option<Vec<u8>>)> = remotes
        .iter()
        .map(|r| (r.endpoint.as_str(), r.token.as_str(), r.ca_cert.clone()))
        .collect();
    assert_eq!(
        seen,
        vec![("a", "t", Some(b"/x".to_vec())), ("b", "u", Some(b"/y".to_vec()))]
    );
    let shared = resolve_remotes(&ZapConfig::default(), strings(&["a", "b"]), strings(&["t"]), paths(&["/x"]))
        .ok()
        .unwrap();
    assert_eq!(shared[1].token, "t");
    assert_eq!(shared[1].ca_cert, Some(b"/x".to_vec()));
}

#[test]
fn counts_of_remote_options_must_fit() {
    let tokens = resolve_remotes(&ZapConfig::default(), strings(&["a", "b"]), Vec::new(), Vec::new()).err().unwrap();
    assert_eq!(tokens, RemoteOptionsError::TokenCount);
    assert_eq!(
        tokens.message(),
        "--remote-token must be specified once for all remotes or once per --remote"
    );
    let certs = resolve_remotes(&ZapConfig::default(), strings(&["a"]), strings(&["t"]), paths(&["/x", "/y"]))
        .err()
        .unwrap();
    assert_eq!(certs, RemoteOptionsError::CaCertCount);
    assert_eq!(
        certs.message(),
        "--remote-ca-cert must be specified once for all remotes or once per --remote"
    );
}

#[test]
fn root_and_index_are_chosen() {
    let config = ZapConfig {
        root: Some(b"/c".to_vec()),
        index: Some(b"/i".to_vec()),
        ..ZapConfig::default()
    };
    assert_eq!(choose_root(Some(b"/o".to_vec()), &config, b"/d".to_vec()), b"/o".to_vec());
    assert_eq!(choose_root(None, &config, b"/d".to_vec()), b"/c".to_vec());
    assert_eq!(choose_root(None, &ZapConfig::default(), b"/d".to_vec()), b"/d".to_vec());
    assert_eq!(choose_index(Some(b"/o".to_vec()), &config), Some(b"/o".to_vec()));
    assert_eq!(choose_index(None, &config), Some(b"/i".to_vec()));
    assert_eq!(choose_index(None, &ZapConfig::default()), None);
}

fn text(s: &str) -> Option<String> {
    Some(s.to_string())
}

#[test]
fn service_options_are_resolved() {
    let config = ZapConfig {
        api_token: text("c"),
        host_label: text("label"),
        tls_cert: Some(b"/cert".to_vec()),
        tls_key: Some(b"/key".to_vec()),
        ..ZapConfig::default()
    };
    let options = resolve_serve(text("o"), None, None, Some(b"/k".to_vec()), config).ok().unwrap();
    assert_eq!(options.token, "o");
    assert_eq!(options.host_label.as_deref(), Some("label"));
    assert_eq!((options.tls_cert, options.tls_key), (b"/cert".to_vec(), b"/k".to_vec()));
}

#[test]
fn service_options_may_be_missing() {
    let serve = |token: Option<String>, cert: Option<&str>, key: Option<&str>| {
        resolve_serve(
            token,
            None,
            cert.map(|c| c.as_bytes().to_vec()),
            key.map(|k| k.as_bytes().to_vec()),
            ZapConfig::default(),
        )
        .err()
        .unwrap()
    };
    assert_eq!(serve(None, None, None), ServeOptionsError::NoToken);
    assert_eq!(serve(text(""), None, None), ServeOptionsError::NoTlsCert);
    assert_eq!(serve(text("t"), Some("c"), None), ServeOptionsError::NoTlsKey);
    assert_eq!(serve(text(""), Some("c"), Some("k")), ServeOptionsError::EmptyToken);
    assert_eq!(
        ServeOptionsError::NoToken.message(),
        "API token is required; use --token, ZAP_API_TOKEN, or config api_token"
    );
    assert_eq!(
        ServeOptionsError::NoTlsCert.message(),
        "TLS certificate is required; use --tls-cert or config tls_cert"
    );
    assert_eq!(
        ServeOptionsError::NoTlsKey.message(),
        "TLS private key is required; use --tls-key or config tls_key"
    );
    assert_eq!(ServeOptionsError::EmptyToken.message(), "API token must not be empty");
}

#[test]
fn index_and_configuration_have_their_places() {
    assert_eq!(
        index_path_in(Some(b"/data".to_vec()), Some(b"/home/u".to_vec())),
        Some(b"/data/zapper/index.json".to_vec())
    );
    assert_eq!(
        index_path_in(None, Some(b"/home/u".to_vec())),
        Some(b"/home/u/.local/share/zapper/index.json".to_vec())
    );
    assert_eq!(index_path_in(None, None), None);
    assert_eq!(
        config_path_in(Some(b"/conf".to_vec())),
        Some(b"/conf/zapper/config.json".to_vec())
    );
    assert_eq!(config_path_in(None), None);
}

#[test]
fn places_of_this_user_end_in_the_same_names() {
    if let Some(place) = default_index_path() {
        assert!(place.ends_with(b"/zapper/index.json"));
    }
    if let Some(place) = default_config_path() {
        assert!(place.ends_with(b"/zapper/config.json"));
    }
}

fn section(label: &str, body: &str) -> String {
    format!("-----BEGIN {}-----\n{}\n-----END {}-----\n", label, body, label)
}

#[test]
fn certificates_are_read() {
    let pem = format!(
        "text\n{}{}{}",
        section("CERTIFICATE", "AAEC"),
        section("PUBLIC KEY", "AAAA"),
        section("CERTIFICATE", "AwQ=")
    );
    let expected = vec![vec![0u8, 1, 2], vec![3u8, 4]];
    assert_eq!(load_certificates(pem.as_bytes()).ok().unwrap(), expected);
    assert_eq!(load_server_certificates(pem.as_bytes()).ok().unwrap(), expected);
}

#[test]
fn service_needs_a_certificate() {
    assert!(load_certificates(b"").ok().unwrap().is_empty());
    let missing = load_server_certificates(b"nothing here\n").err().unwrap();
    assert!(matches!(missing, TlsError::NoCertificates));
    assert_eq!(missing.message(b"/c.pem"), "TLS certificate file has no certificates: /c.pem");
    assert!(matches!(require_certificates(Ok(Vec::new())), Err(TlsError::NoCertificates)));
    assert_eq!(require_certificates(Ok(vec![vec![1u8]])).ok().unwrap(), vec![vec![1u8]]);
}

#[test]
fn broken_certificate_file_is_reported() {
    let error = load_certificates(b"-----BEGIN CERTIFICATE-----\nAAEC\n").err().unwrap();
    assert!(matches!(&error, TlsError::Certificates(reason) if !reason.is_empty()));
    assert_eq!(error.message(b"/c\xff"), "could not parse certificate file /c\u{fffd}");
}

#[test]
fn first_private_key_is_read() {
    for (label, kind) in [
        ("RSA PRIVATE KEY", KeyKind::Pkcs1),
        ("EC PRIVATE KEY", KeyKind::Sec1),
        ("PRIVATE KEY", KeyKind::Pkcs8),
    ] {
        let pem = format!(
            "{}{}{}",
            section("CERTIFICATE", "AAEC"),
            section(label, "BQY="),
            section("PRIVATE KEY", "BwgJ")
        );
        let key = load_private_key(pem.as_bytes()).ok().unwrap();
        assert_eq!(key.kind, kind);
        assert_eq!(key.der, vec![5u8, 6]);
    }
}

#[test]
fn private_key_may_be_missing_or_broken() {
    let missing = load_private_key(section("CERTIFICATE", "AAEC").as_bytes()).err().unwrap();
    assert!(matches!(missing, TlsError::NoKey));
    assert_eq!(missing.message(b"/k.pem"), "private key file has no key: /k.pem");
    let broken = load_private_key(section("PRIVATE KEY", "*").as_bytes()).err().unwrap();
    assert!(matches!(&broken, TlsError::Key(reason) if !reason.is_empty()));
    assert_eq!(broken.message(b"/k.pem"), "could not parse private key /k.pem");
    assert!(matches!(require_private_key(Ok(None)), Err(TlsError::NoKey)));
    assert!(matches!(require_private_key(Err("e".to_string())), Err(TlsError::Key(_))));
}

/// A DER value: a tag, a length and the contents.
fn der(tag: u8, contents: &[&[u8]]) -> Vec<u8> {
    let body = contents.concat();
    let mut out = vec![tag];
    if body.len() < 128 {
        out.push(body.len() as u8);
    } else {
        out.extend([0x82, (body.len() >> 8) as u8, body.len() as u8]);
    }
    out.extend(body);
    out
}

/// A certificate of the first version, which is enough to be trusted as a root.
fn root_certificate(name: &[u8]) -> Vec<u8> {
    let serial = der(2, &[&[1]]);
    let algorithm = der(0x30, &[&der(6, &[&[0x2a, 3]])]);
    let issuer = der(0x30, &[]);
    let validity = der(0x30, &[&der(0x17, &[b"200101000000Z"]), &der(0x17, &[b"300101000000Z"])]);
    let attribute = der(0x30, &[&der(6, &[&[0x55, 4, 3]]), &der(12, &[name])]);
    let subject = der(0x30, &[&der(0x31, &[&attribute])]);
    let key = der(0x30, &[&algorithm, &der(3, &[&[0, 1, 2, 3]])]);
    let tbs = der(0x30, &[&serial, &algorithm, &issuer, &validity, &subject, &key]);
    der(0x30, &[&tbs, &algorithm, &der(3, &[&[0, 9]])])
}

#[test]
fn root_certificates_are_trusted() {
    let store = trust_certificates(&vec![root_certificate(b"one"), root_certificate(b"two")])
        .ok()
        .unwrap();
    assert_eq!(store.len(), 2);
    assert!(store.roots[0].subject.ends_with(b"one"));
    assert!(store.roots[1].subject.ends_with(b"two"));
    assert!(trust_certificates(&Vec::new()).ok().unwrap().is_empty());
}

#[test]
fn certificate_that_cannot_be_trusted_is_reported() {
    let error = trust_certificates(&vec![root_certificate(b"one"), vec![1, 2, 3]]).err().unwrap();
    assert!(matches!(&error, TlsError::Root(reason) if !reason.is_empty()));
    assert_eq!(error.message(b"/ca.pem"), "could not add CA certificate /ca.pem");
    let pem = section("CERTIFICATE", "AAEC");
    assert!(matches!(load_root_store(pem.as_bytes()), Err(TlsError::Root(_))));
    assert!(load_root_store(b"").ok().unwrap().is_empty());
    assert!(matches!(
        load_root_store(b"-----BEGIN CERTIFICATE-----\n"),
        Err(TlsError::Certificates(_))
    ));
}

#[test]
fn server_names_are_checked() {
    assert_eq!(server_name("notes.local").ok().unwrap(), "notes.local");
    assert_eq!(server_name("0:0:0:0:0:0:0:1").ok().unwrap(), "::1");
    let error = server_name("two words").err().unwrap();
    assert!(!error.reason.is_empty());
    assert_eq!(error.message("two words"), "invalid TLS server name two words");
}
