//! Certificates and private keys, read from PEM files, and the store of trusted
//! certificates.
use crate::encoding;
use crate::path;
use vstd::prelude::*;

verus! {

/// How a private key is encoded.
#[derive(Debug, Clone, Copy, PartialEq, Eq, Structural)]
pub enum KeyKind {
    Pkcs1,
    Sec1,
    Pkcs8,
    /// In a way that this library does not know.
    Other,
}

/// A private key.
pub struct PrivateKey {
    pub kind: KeyKind,
    pub der: Vec<u8>,
}

/// What is wrong with a file of certificates or a file with a private key. Where
/// the file could not be read as PEM, or a certificate was refused, the reason
/// comes with it.
pub enum TlsError {
    Certificates(String),
    NoCertificates,
    Key(String),
    NoKey,
    /// A certificate cannot be trusted.
    Root(String),
}

#[verifier::external_type_specification]
#[verifier::external_body]
pub struct ExRootCertStore(rustls::RootCertStore);

/// What a store of trusted certificates holds, in order: of each certificate the
/// subject, the public key and the name constraints.
pub uninterp spec fn store_anchors(store: rustls::RootCertStore) -> Seq<
    (Seq<u8>, Seq<u8>, Option<Seq<u8>>),
>;

/// What `rustls::RootCertStore::add` puts into the store for a certificate, or
/// the text of the error with which it refuses the certificate.
pub uninterp spec fn trust_anchor(der: Seq<u8>) -> Result<
    (Seq<u8>, Seq<u8>, Option<Seq<u8>>),
    Seq<char>,
>;

/// Calls `rustls::RootCertStore::empty`, which gives a store that holds nothing.
#[verifier::external_body]
fn empty_store() -> (store: rustls::RootCertStore)
    ensures
        store_anchors(store) == Seq::<(Seq<u8>, Seq<u8>, Option<Seq<u8>>)>::empty(),
{
    rustls::RootCertStore::empty()
}

/// Calls `rustls::RootCertStore::add`. What it makes of the certificate stands
/// behind what the store held before; where it refuses the certificate, the store
/// stays as it was. How it reads the certificate is left to it; that this depends
/// on the certificate alone is claimed.
#[verifier::external_body]
fn add_certificate(store: &mut rustls::RootCertStore, der: &[u8]) -> (added: Result<(), String>)
    ensures
        match added {
            Ok(_) => trust_anchor(der@) is Ok && store_anchors(*final(store)) == store_anchors(
                *old(store),
            ).push(trust_anchor(der@)->Ok_0),
            Err(e) => trust_anchor(der@) == Err::<
                (Seq<u8>, Seq<u8>, Option<Seq<u8>>),
                Seq<char>,
            >(e@) && store_anchors(*final(store)) == store_anchors(*old(store)),
        },
{
    store.add(rustls::pki_types::CertificateDer::from(der)).map_err(|e| e.to_string())
}

/// The certificates that `rustls_pemfile::certs` finds in a file, or the text of
/// the first error that it comes upon.
pub uninterp spec fn pem_certificates(pem: Seq<u8>) -> Result<Seq<Seq<u8>>, Seq<char>>;

/// The first private key that `rustls_pemfile::private_key` finds in a file, if
/// there is one, or the text of the error that it comes upon before.
pub uninterp spec fn pem_private_key(pem: Seq<u8>) -> Result<
    Option<(KeyKind, Seq<u8>)>,
    Seq<char>,
>;

/// The name of a server as `rustls::pki_types::ServerName` shows it, or the text
/// of the error with which it refuses the host.
pub uninterp spec fn server_name_text(host: Seq<char>) -> Result<Seq<char>, Seq<char>>;

/// Makes a `rustls::pki_types::ServerName` of a host by its `TryFrom<String>` and
/// shows it by `ServerName::to_str`. Which hosts are refused is left to it; that
/// this depends on the host alone is claimed.
#[verifier::external_body]
fn parse_server_name(host: &str) -> (name: Result<String, String>)
    ensures
        match name {
            Ok(n) => server_name_text(host@) == Ok::<Seq<char>, Seq<char>>(n@),
            Err(e) => server_name_text(host@) == Err::<Seq<char>, Seq<char>>(e@),
        },
{
    match rustls::pki_types::ServerName::try_from(host.to_owned()) {
        Ok(name) => Ok(name.to_str().into_owned()),
        Err(e) => Err(e.to_string()),
    }
}

/// Calls `rustls_pemfile::certs` on the contents of a file and collects what it
/// gives, up to the first error. What the function finds in the file is left to
/// it; that it depends on the contents alone is claimed.
#[verifier::external_body]
fn parse_certificates(pem: &[u8]) -> (certificates: Result<Vec<Vec<u8>>, String>)
    ensures
        match certificates {
            Ok(list) => pem_certificates(pem@) == Ok::<Seq<Seq<u8>>, Seq<char>>(
                path::byte_lists(list@),
            ),
            Err(e) => pem_certificates(pem@) == Err::<Seq<Seq<u8>>, Seq<char>>(e@),
        },
{
    let mut reader: &[u8] = pem;
    rustls_pemfile::certs(&mut reader)
        .map(|c| c.map(|der| der.to_vec()).map_err(|e| e.to_string()))
        .collect()
}

/// Calls `rustls_pemfile::private_key` on the contents of a file. What the
/// function finds in the file is left to it; that it depends on the contents
/// alone is claimed.
#[verifier::external_body]
fn parse_private_key(pem: &[u8]) -> (key: Result<Option<PrivateKey>, String>)
    ensures
        match key {
            Ok(Some(k)) => pem_private_key(pem@) == Ok::<
                Option<(KeyKind, Seq<u8>)>,
                Seq<char>,
            >(Some((k.kind, k.der@))),
            Ok(None) => pem_private_key(pem@) == Ok::<Option<(KeyKind, Seq<u8>)>, Seq<char>>(None),
            Err(e) => pem_private_key(pem@) == Err::<Option<(KeyKind, Seq<u8>)>, Seq<char>>(e@),
        },
{
    let mut reader: &[u8] = pem;
    let key = rustls_pemfile::private_key(&mut reader).map_err(|e| e.to_string())?;
    Ok(key.map(|k| PrivateKey {
        kind: match &k {
            rustls::pki_types::PrivateKeyDer::Pkcs1(_) => KeyKind::Pkcs1,
            rustls::pki_types::PrivateKeyDer::Sec1(_) => KeyKind::Sec1,
            rustls::pki_types::PrivateKeyDer::Pkcs8(_) => KeyKind::Pkcs8,
            _ => KeyKind::Other,
        },
        der: k.secret_der().to_vec(),
    }))
}

/// What the user is told of a file.
pub open spec fn tls_error_text(error: TlsError, file: Seq<u8>) -> Seq<char> {
    let name = encoding::lossy(file);
    match error {
        TlsError::Certificates(_) => "could not parse certificate file "@ + name,
        TlsError::NoCertificates => "TLS certificate file has no certificates: "@ + name,
        TlsError::Key(_) => "could not parse private key "@ + name,
        TlsError::NoKey => "private key file has no key: "@ + name,
        TlsError::Root(_) => "could not add CA certificate "@ + name,
    }
}

impl TlsError {
    /// What the user is told of the file under a path.
    pub fn message(&self, file: &[u8]) -> (s: String)
        ensures
            s@ == tls_error_text(*self, file@),
    {
        let name = encoding::decode_lossy(file);
        let mut s = match self {
            TlsError::Certificates(_) => "could not parse certificate file ".to_owned(),
            TlsError::NoCertificates => "TLS certificate file has no certificates: ".to_owned(),
            TlsError::Key(_) => "could not parse private key ".to_owned(),
            TlsError::NoKey => "private key file has no key: ".to_owned(),
            TlsError::Root(_) => "could not add CA certificate ".to_owned(),
        };
        s.append(name.as_str());
        s
    }
}

/// The certificates in a file; a file may hold none.
pub fn load_certificates(pem: &[u8]) -> (certificates: Result<Vec<Vec<u8>>, TlsError>)
    ensures
        match certificates {
            Ok(list) => pem_certificates(pem@) == Ok::<Seq<Seq<u8>>, Seq<char>>(
                path::byte_lists(list@),
            ),
            Err(TlsError::Certificates(e)) => pem_certificates(pem@) == Err::<
                Seq<Seq<u8>>,
                Seq<char>,
            >(e@),
            Err(_) => false,
        },
{
    match parse_certificates(pem) {
        Ok(list) => Ok(list),
        Err(e) => Err(TlsError::Certificates(e)),
    }
}

/// The text of the error of the first certificate that cannot be trusted.
pub open spec fn first_untrusted(certificates: Seq<Seq<u8>>) -> Option<Seq<char>>
    decreases certificates.len(),
{
    if certificates.len() == 0 {
        None
    } else {
        match first_untrusted(certificates.drop_last()) {
            Some(e) => Some(e),
            None => match trust_anchor(certificates.last()) {
                Ok(_) => None,
                Err(e) => Some(e),
            },
        }
    }
}

/// What a store holds after all these certificates were added.
pub open spec fn anchors_of(certificates: Seq<Seq<u8>>) -> Seq<
    (Seq<u8>, Seq<u8>, Option<Seq<u8>>),
> {
    certificates.map_values(|der: Seq<u8>| trust_anchor(der)->Ok_0)
}

proof fn lemma_first_untrusted_stays(certificates: Seq<Seq<u8>>, n: int)
    requires
        0 <= n <= certificates.len(),
        first_untrusted(certificates.take(n)) is Some,
    ensures
        first_untrusted(certificates) == first_untrusted(certificates.take(n)),
    decreases certificates.len() - n,
{
    if n < certificates.len() {
        assert(certificates.take(n + 1).drop_last() =~= certificates.take(n));
        lemma_first_untrusted_stays(certificates, n + 1);
    } else {
        assert(certificates.take(n) =~= certificates);
    }
}

/// A store in which all the given certificates are trusted. The first one that
/// cannot be trusted is an error.
pub fn trust_certificates(
    certificates: &Vec<Vec<u8>>,
) -> (store: Result<rustls::RootCertStore, TlsError>)
    ensures
        ({
            let all = path::byte_lists(certificates@);
            match store {
                Ok(s) => first_untrusted(all) is None && store_anchors(s) == anchors_of(all),
                Err(TlsError::Root(e)) => first_untrusted(all) == Some(e@),
                Err(_) => false,
            }
        }),
{
    let ghost all = path::byte_lists(certificates@);
    let mut store = empty_store();
    let mut i: usize = 0;
    assert(store_anchors(store) =~= anchors_of(all.take(0)));
    while i < certificates.len()
        invariant
            i <= certificates@.len(),
            all == path::byte_lists(certificates@),
            first_untrusted(all.take(i as int)) is None,
            store_anchors(store) == anchors_of(all.take(i as int)),
        decreases certificates@.len() - i,
    {
        assert(all[i as int] == certificates@[i as int]@);
        assert(all.take(i + 1).drop_last() =~= all.take(i as int));
        match add_certificate(&mut store, certificates[i].as_slice()) {
            Ok(_) => {
                assert(anchors_of(all.take(i + 1)) =~= anchors_of(all.take(i as int)).push(
                    trust_anchor(all[i as int])->Ok_0,
                ));
            },
            Err(e) => {
                proof {
                    lemma_first_untrusted_stays(all, i + 1);
                }
                return Err(TlsError::Root(e));
            },
        }
        i += 1;
    }
    assert(all.take(i as int) =~= all);
    Ok(store)
}

/// The store in which the certificates of a file are trusted.
pub fn load_root_store(pem: &[u8]) -> (store: Result<rustls::RootCertStore, TlsError>)
    ensures
        match store {
            Ok(s) => pem_certificates(pem@) is Ok && first_untrusted(pem_certificates(pem@)->Ok_0)
                is None && store_anchors(s) == anchors_of(pem_certificates(pem@)->Ok_0),
            Err(TlsError::Certificates(e)) => pem_certificates(pem@) == Err::<
                Seq<Seq<u8>>,
                Seq<char>,
            >(e@),
            Err(TlsError::Root(e)) => pem_certificates(pem@) is Ok && first_untrusted(
                pem_certificates(pem@)->Ok_0,
            ) == Some(e@),
            Err(_) => false,
        },
{
    match load_certificates(pem) {
        Ok(list) => trust_certificates(&list),
        Err(e) => Err(e),
    }
}

/// Refuses a list of certificates that is empty.
pub fn require_certificates(
    certificates: Result<Vec<Vec<u8>>, TlsError>,
) -> (checked: Result<Vec<Vec<u8>>, TlsError>)
    ensures
        checked == (match certificates {
            Ok(list) => if list@.len() == 0 {
                Err(TlsError::NoCertificates)
            } else {
                certificates
            },
            Err(_) => certificates,
        }),
{
    match certificates {
        Ok(list) => if list.len() == 0 {
            Err(TlsError::NoCertificates)
        } else {
            Ok(list)
        },
        Err(e) => Err(e),
    }
}

/// The certificates of a service, of which there is at least one.
pub fn load_server_certificates(pem: &[u8]) -> (certificates: Result<Vec<Vec<u8>>, TlsError>)
    ensures
        match certificates {
            Ok(list) => list@.len() > 0 && pem_certificates(pem@) == Ok::<
                Seq<Seq<u8>>,
                Seq<char>,
            >(path::byte_lists(list@)),
            Err(TlsError::Certificates(e)) => pem_certificates(pem@) == Err::<
                Seq<Seq<u8>>,
                Seq<char>,
            >(e@),
            Err(TlsError::NoCertificates) => pem_certificates(pem@) == Ok::<
                Seq<Seq<u8>>,
                Seq<char>,
            >(Seq::empty()),
            Err(_) => false,
        },
{
    let certificates = load_certificates(pem);
    assert(certificates is Ok && certificates->Ok_0@.len() == 0 ==> path::byte_lists(
        certificates->Ok_0@,
    ) =~= Seq::<Seq<u8>>::empty());
    require_certificates(certificates)
}

/// Refuses a file without a private key.
pub fn require_private_key(
    key: Result<Option<PrivateKey>, String>,
) -> (checked: Result<PrivateKey, TlsError>)
    ensures
        checked == (match key {
            Ok(Some(k)) => Ok(k),
            Ok(None) => Err(TlsError::NoKey),
            Err(e) => Err(TlsError::Key(e)),
        }),
{
    match key {
        Ok(Some(k)) => Ok(k),
        Ok(None) => Err(TlsError::NoKey),
        Err(e) => Err(TlsError::Key(e)),
    }
}

/// The first private key in a file.
pub fn load_private_key(pem: &[u8]) -> (key: Result<PrivateKey, TlsError>)
    ensures
        match key {
            Ok(k) => pem_private_key(pem@) == Ok::<Option<(KeyKind, Seq<u8>)>, Seq<char>>(
                Some((k.kind, k.der@)),
            ),
            Err(TlsError::NoKey) => pem_private_key(pem@) == Ok::<
                Option<(KeyKind, Seq<u8>)>,
                Seq<char>,
            >(None),
            Err(TlsError::Key(e)) => pem_private_key(pem@) == Err::<
                Option<(KeyKind, Seq<u8>)>,
                Seq<char>,
            >(e@),
            Err(_) => false,
        },
{
    require_private_key(parse_private_key(pem))
}

/// Why a host is not the name of a server.
pub struct ServerNameError {
    pub reason: String,
}

impl ServerNameError {
    /// What the user is told of the host.
    pub fn message(&self, host: &str) -> (s: String)
        ensures
            s@ == "invalid TLS server name "@ + host@,
    {
        let mut s = "invalid TLS server name ".to_owned();
        s.append(host);
        s
    }
}

/// The name under which a host has to prove who it is.
pub fn server_name(host: &str) -> (name: Result<String, ServerNameError>)
    ensures
        match name {
            Ok(n) => server_name_text(host@) == Ok::<Seq<char>, Seq<char>>(n@),
            Err(e) => server_name_text(host@) == Err::<Seq<char>, Seq<char>>(e.reason@),
        },
{
    match parse_server_name(host) {
        Ok(name) => Ok(name),
        Err(reason) => Err(ServerNameError { reason }),
    }
}

/// The error of certificates is that of the first one that cannot be trusted. Where
/// all can, the store holds what is made of each, in order.
pub proof fn law_first_untrusted_counts(certificates: Seq<Seq<u8>>, i: int)
    requires
        0 <= i < certificates.len(),
        forall|j: int| 0 <= j < i ==> trust_anchor(#[trigger] certificates[j]) is Ok,
    ensures
        trust_anchor(certificates[i]) is Err ==> first_untrusted(certificates) == Some(
            trust_anchor(certificates[i])->Err_0,
        ),
        i == certificates.len() - 1 && trust_anchor(certificates[i]) is Ok ==> first_untrusted(
            certificates,
        ) is None,
        first_untrusted(Seq::empty()) is None,
        anchors_of(certificates).len() == certificates.len(),
        trust_anchor(certificates[i]) is Ok ==> anchors_of(certificates)[i] == trust_anchor(
            certificates[i],
        )->Ok_0,
    decreases certificates.len(),
{
    let shorter = certificates.drop_last();
    if i < shorter.len() {
        assert forall|j: int| 0 <= j < i implies trust_anchor(#[trigger] shorter[j]) is Ok by {
            assert(shorter[j] == certificates[j]);
        }
        law_first_untrusted_counts(shorter, i);
    } else if shorter.len() > 0 {
        assert forall|j: int| 0 <= j < shorter.len() implies trust_anchor(
            #[trigger] shorter[j],
        ) is Ok by {
            assert(shorter[j] == certificates[j]);
        }
        law_first_untrusted_counts(shorter, shorter.len() - 1);
    }
}

} // verus!
