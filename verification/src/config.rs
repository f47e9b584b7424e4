//! The configuration file and how command-line options go with it.
use crate::path;
use crate::text;
use vstd::prelude::*;
use vstd::slice::slice_to_vec;

verus! {

/// A remote search service.
pub struct RemoteConfig {
    pub endpoint: String,
    pub token: String,
    pub host: Option<String>,
    pub ca_cert: Option<Vec<u8>>,
}

/// What the configuration file says. Paths are kept as bytes.
pub struct ZapConfig {
    pub root: Option<Vec<u8>>,
    pub index: Option<Vec<u8>>,
    pub all: Option<bool>,
    pub include_patterns: Option<Vec<String>>,
    pub watch_patterns: Option<Vec<String>>,
    pub api_token: Option<String>,
    pub host_label: Option<String>,
    pub tls_cert: Option<Vec<u8>>,
    pub tls_key: Option<Vec<u8>>,
    pub remotes: Option<Vec<RemoteConfig>>,
}

impl Default for ZapConfig {
    /// A configuration that says nothing.
    fn default() -> (config: ZapConfig)
        ensures
            config.root is None,
            config.index is None,
            config.all is None,
            config.include_patterns is None,
            config.watch_patterns is None,
            config.api_token is None,
            config.host_label is None,
            config.tls_cert is None,
            config.tls_key is None,
            config.remotes is None,
    {
        ZapConfig {
            root: None,
            index: None,
            all: None,
            include_patterns: None,
            watch_patterns: None,
            api_token: None,
            host_label: None,
            tls_cert: None,
            tls_key: None,
            remotes: None,
        }
    }
}

/// A remote search service, as text and bytes.
pub struct RemoteView {
    pub endpoint: Seq<char>,
    pub token: Seq<char>,
    pub host: Option<Seq<char>>,
    pub ca_cert: Option<Seq<u8>>,
}

impl View for RemoteConfig {
    type V = RemoteView;

    open spec fn view(&self) -> RemoteView {
        RemoteView {
            endpoint: self.endpoint@,
            token: self.token@,
            host: text::optional_text(self.host),
            ca_cert: path::optional_bytes(self.ca_cert),
        }
    }
}

/// The services in a list.
pub open spec fn remote_views(list: Seq<RemoteConfig>) -> Seq<RemoteView> {
    list.map_values(|r: RemoteConfig| r@)
}

/// The services that a configuration lists.
pub open spec fn configured_remotes(config: ZapConfig) -> Seq<RemoteView> {
    match config.remotes {
        Some(list) => remote_views(list@),
        None => Seq::empty(),
    }
}

/// The item for the service at a position: the one item for all, or its own.
pub open spec fn item_for<T>(items: Seq<T>, i: int) -> T {
    if items.len() == 1 {
        items[0]
    } else {
        items[i]
    }
}

/// The service that the options at one position ask for.
pub open spec fn option_remote(
    endpoints: Seq<Seq<char>>,
    tokens: Seq<Seq<char>>,
    ca_certs: Seq<Seq<u8>>,
    i: int,
) -> RemoteView {
    RemoteView {
        endpoint: endpoints[i],
        token: item_for(tokens, i),
        host: None,
        ca_cert: if ca_certs.len() == 0 {
            None
        } else {
            Some(item_for(ca_certs, i))
        },
    }
}

/// The services that the options ask for.
pub open spec fn option_remotes(
    endpoints: Seq<Seq<char>>,
    tokens: Seq<Seq<char>>,
    ca_certs: Seq<Seq<u8>>,
) -> Seq<RemoteView> {
    Seq::new(endpoints.len(), |i: int| option_remote(endpoints, tokens, ca_certs, i))
}

/// Why options do not name services.
#[derive(Debug, Clone, Copy, PartialEq, Eq, Structural)]
pub enum RemoteOptionsError {
    /// There is neither one token nor one for each service.
    TokenCount,
    /// There are certificates, but neither one nor one for each service.
    CaCertCount,
}

impl RemoteOptionsError {
    /// What the user is told.
    pub fn message(&self) -> (s: &'static str)
        ensures
            s@ == (match *self {
                RemoteOptionsError::TokenCount =>
                    "--remote-token must be specified once for all remotes or once per --remote"@,
                RemoteOptionsError::CaCertCount =>
                    "--remote-ca-cert must be specified once for all remotes or once per --remote"@,
            }),
    {
        match *self {
            RemoteOptionsError::TokenCount =>
                "--remote-token must be specified once for all remotes or once per --remote",
            RemoteOptionsError::CaCertCount =>
                "--remote-ca-cert must be specified once for all remotes or once per --remote",
        }
    }
}

/// Whether there is one item for all of `n` services or one for each.
pub open spec fn count_fits(items: nat, n: nat) -> bool {
    items == 1 || items == n
}

/// The services to search: those of the configuration, then those that the
/// options name. Tokens and certificates do not matter without an endpoint.
pub open spec fn resolved_remotes(
    configured: Seq<RemoteView>,
    endpoints: Seq<Seq<char>>,
    tokens: Seq<Seq<char>>,
    ca_certs: Seq<Seq<u8>>,
) -> Result<Seq<RemoteView>, RemoteOptionsError> {
    if endpoints.len() == 0 {
        Ok(configured)
    } else if !count_fits(tokens.len(), endpoints.len()) {
        Err(RemoteOptionsError::TokenCount)
    } else if ca_certs.len() > 0 && !count_fits(ca_certs.len(), endpoints.len()) {
        Err(RemoteOptionsError::CaCertCount)
    } else {
        Ok(configured + option_remotes(endpoints, tokens, ca_certs))
    }
}

/// A copy of an optional path.
pub fn copy_path(value: &Option<Vec<u8>>) -> (copy: Option<Vec<u8>>)
    ensures
        path::optional_bytes(copy) == path::optional_bytes(*value),
{
    match value {
        Some(p) => Some(slice_to_vec(p.as_slice())),
        None => None,
    }
}

/// A copy of a list of strings.
pub fn copy_strings(list: &Vec<String>) -> (copy: Vec<String>)
    ensures
        text::texts(copy@) == text::texts(list@),
{
    let mut copy: Vec<String> = Vec::new();
    let mut i: usize = 0;
    while i < list.len()
        invariant
            i <= list@.len(),
            copy@ == list@.take(i as int),
        decreases list@.len() - i,
    {
        copy.push(list[i].clone());
        i += 1;
    }
    assert(list@.take(i as int) =~= list@);
    copy
}

fn copy_remote(remote: &RemoteConfig) -> (copy: RemoteConfig)
    ensures
        copy@ == remote@,
{
    RemoteConfig {
        endpoint: remote.endpoint.clone(),
        token: remote.token.clone(),
        host: match &remote.host {
            Some(h) => Some(h.clone()),
            None => None,
        },
        ca_cert: copy_path(&remote.ca_cert),
    }
}

/// Resolves the services to search; see [`resolved_remotes`].
pub fn resolve_remotes(
    config: &ZapConfig,
    endpoints: Vec<String>,
    tokens: Vec<String>,
    ca_certs: Vec<Vec<u8>>,
) -> (remotes: Result<Vec<RemoteConfig>, RemoteOptionsError>)
    ensures
        match remotes {
            Ok(list) => resolved_remotes(
                configured_remotes(*config),
                text::texts(endpoints@),
                text::texts(tokens@),
                path::byte_lists(ca_certs@),
            ) == Ok::<Seq<RemoteView>, RemoteOptionsError>(remote_views(list@)),
            Err(e) => resolved_remotes(
                configured_remotes(*config),
                text::texts(endpoints@),
                text::texts(tokens@),
                path::byte_lists(ca_certs@),
            ) == Err::<Seq<RemoteView>, RemoteOptionsError>(e),
        },
{
    let ghost configured = configured_remotes(*config);
    let ghost names = text::texts(endpoints@);
    let ghost secrets = text::texts(tokens@);
    let ghost certs = path::byte_lists(ca_certs@);
    let mut remotes: Vec<RemoteConfig> = Vec::new();
    assert(remote_views(remotes@) =~= Seq::<RemoteView>::empty());
    if let Some(list) = &config.remotes {
        let mut i: usize = 0;
        while i < list.len()
            invariant
                i <= list@.len(),
                remote_views(remotes@) == remote_views(list@).take(i as int),
            decreases list@.len() - i,
        {
            let ghost before = remotes@;
            remotes.push(copy_remote(&list[i]));
            assert(remote_views(remotes@) =~= remote_views(before).push(list@[i as int]@));
            i += 1;
        }
        assert(remote_views(list@).take(i as int) =~= remote_views(list@));
    }
    assert(remote_views(remotes@) == configured);
    if endpoints.len() == 0 {
        return Ok(remotes);
    }
    if tokens.len() != endpoints.len() && tokens.len() != 1 {
        return Err(RemoteOptionsError::TokenCount);
    }
    if ca_certs.len() != 0 && ca_certs.len() != endpoints.len() && ca_certs.len() != 1 {
        return Err(RemoteOptionsError::CaCertCount);
    }
    let ghost wanted = option_remotes(names, secrets, certs);
    let mut i: usize = 0;
    assert(configured + wanted.take(0) =~= configured);
    while i < endpoints.len()
        invariant
            i <= endpoints@.len(),
            names == text::texts(endpoints@),
            secrets == text::texts(tokens@),
            certs == path::byte_lists(ca_certs@),
            wanted == option_remotes(names, secrets, certs),
            count_fits(tokens@.len(), endpoints@.len()),
            ca_certs@.len() > 0 ==> count_fits(ca_certs@.len(), endpoints@.len()),
            remote_views(remotes@) == configured + wanted.take(i as int),
        decreases endpoints@.len() - i,
    {
        let token = if tokens.len() == 1 {
            tokens[0].clone()
        } else {
            tokens[i].clone()
        };
        assert(token@ == item_for(secrets, i as int));
        let ca_cert = if ca_certs.len() == 0 {
            None
        } else if ca_certs.len() == 1 {
            Some(slice_to_vec(ca_certs[0].as_slice()))
        } else {
            Some(slice_to_vec(ca_certs[i].as_slice()))
        };
        let remote = RemoteConfig { endpoint: endpoints[i].clone(), token, host: None, ca_cert };
        assert(remote@ == wanted[i as int]);
        let ghost before = remotes@;
        remotes.push(remote);
        assert(remote_views(remotes@) =~= remote_views(before).push(remote@));
        assert(wanted.take(i + 1) =~= wanted.take(i as int).push(wanted[i as int]));
        assert(remote_views(remotes@) =~= configured + wanted.take(i + 1));
        i += 1;
    }
    assert(wanted.take(i as int) =~= wanted);
    Ok(remotes)
}

/// The first of two optional values that is there.
pub open spec fn first_of<T>(a: Option<T>, b: Option<T>) -> Option<T> {
    match a {
        Some(x) => Some(x),
        None => b,
    }
}

/// The directory to index: the option, else the configured root, else the
/// current directory.
pub fn choose_root(
    root: Option<Vec<u8>>,
    config: &ZapConfig,
    current_dir: Vec<u8>,
) -> (chosen: Vec<u8>)
    ensures
        Some(chosen@) == first_of(
            first_of(path::optional_bytes(root), path::optional_bytes(config.root)),
            Some(current_dir@),
        ),
{
    match root {
        Some(p) => p,
        None => match &config.root {
            Some(p) => slice_to_vec(p.as_slice()),
            None => current_dir,
        },
    }
}

/// The index path that the option or else the configuration names.
pub fn choose_index(index: Option<Vec<u8>>, config: &ZapConfig) -> (chosen: Option<Vec<u8>>)
    ensures
        path::optional_bytes(chosen) == first_of(
            path::optional_bytes(index),
            path::optional_bytes(config.index),
        ),
{
    match index {
        Some(p) => Some(p),
        None => copy_path(&config.index),
    }
}

/// What the search service needs to know before it starts.
pub struct ServeOptions {
    pub token: String,
    pub host_label: Option<String>,
    pub tls_cert: Vec<u8>,
    pub tls_key: Vec<u8>,
}

/// Why the search service cannot start.
#[derive(Debug, Clone, Copy, PartialEq, Eq, Structural)]
pub enum ServeOptionsError {
    NoToken,
    NoTlsCert,
    NoTlsKey,
    EmptyToken,
}

impl ServeOptionsError {
    /// What the user is told.
    pub fn message(&self) -> (s: &'static str)
        ensures
            s@ == (match *self {
                ServeOptionsError::NoToken =>
                    "API token is required; use --token, ZAP_API_TOKEN, or config api_token"@,
                ServeOptionsError::NoTlsCert =>
                    "TLS certificate is required; use --tls-cert or config tls_cert"@,
                ServeOptionsError::NoTlsKey =>
                    "TLS private key is required; use --tls-key or config tls_key"@,
                ServeOptionsError::EmptyToken => "API token must not be empty"@,
            }),
    {
        match *self {
            ServeOptionsError::NoToken =>
                "API token is required; use --token, ZAP_API_TOKEN, or config api_token",
            ServeOptionsError::NoTlsCert =>
                "TLS certificate is required; use --tls-cert or config tls_cert",
            ServeOptionsError::NoTlsKey =>
                "TLS private key is required; use --tls-key or config tls_key",
            ServeOptionsError::EmptyToken => "API token must not be empty",
        }
    }
}

/// The options of the search service, each from the command line or else from
/// the configuration. A token, a certificate and a key are required, in this
/// order, and then that the token is not empty.
pub fn resolve_serve(
    token: Option<String>,
    host_label: Option<String>,
    tls_cert: Option<Vec<u8>>,
    tls_key: Option<Vec<u8>>,
    config: ZapConfig,
) -> (options: Result<ServeOptions, ServeOptionsError>)
    ensures
        ({
            let t = first_of(text::optional_text(token), text::optional_text(config.api_token));
            let c = first_of(path::optional_bytes(tls_cert), path::optional_bytes(config.tls_cert));
            let k = first_of(path::optional_bytes(tls_key), path::optional_bytes(config.tls_key));
            match options {
                Ok(o) => {
                    &&& t == Some(o.token@)
                    &&& o.token@.len() > 0
                    &&& c == Some(o.tls_cert@)
                    &&& k == Some(o.tls_key@)
                    &&& text::optional_text(o.host_label) == first_of(
                        text::optional_text(host_label),
                        text::optional_text(config.host_label),
                    )
                },
                Err(ServeOptionsError::NoToken) => t is None,
                Err(ServeOptionsError::NoTlsCert) => t is Some && c is None,
                Err(ServeOptionsError::NoTlsKey) => t is Some && c is Some && k is None,
                Err(ServeOptionsError::EmptyToken) => {
                    &&& t == Some(Seq::<char>::empty())
                    &&& c is Some
                    &&& k is Some
                },
            }
        }),
{
    let token = match token {
        Some(t) => t,
        None => match config.api_token {
            Some(t) => t,
            None => {
                return Err(ServeOptionsError::NoToken);
            },
        },
    };
    let host_label = match host_label {
        Some(h) => Some(h),
        None => config.host_label,
    };
    let tls_cert = match tls_cert {
        Some(c) => c,
        None => match config.tls_cert {
            Some(c) => c,
            None => {
                return Err(ServeOptionsError::NoTlsCert);
            },
        },
    };
    let tls_key = match tls_key {
        Some(k) => k,
        None => match config.tls_key {
            Some(k) => k,
            None => {
                return Err(ServeOptionsError::NoTlsKey);
            },
        },
    };
    if token.as_str().is_empty() {
        assert(token@ =~= Seq::<char>::empty());
        return Err(ServeOptionsError::EmptyToken);
    }
    Ok(ServeOptions { token, host_label, tls_cert, tls_key })
}

/// The configured services come first, all of them and unchanged. Behind them comes
/// one for each endpoint of the options, in order, with its own token or the one
/// for all, no name, and its own certificate or the one for all, if there is any.
pub proof fn law_services_are_resolved(
    configured: Seq<RemoteView>,
    endpoints: Seq<Seq<char>>,
    tokens: Seq<Seq<char>>,
    ca_certs: Seq<Seq<u8>>,
    i: int,
)
    requires
        endpoints.len() > 0,
        tokens.len() == 1 || tokens.len() == endpoints.len(),
        ca_certs.len() <= 1 || ca_certs.len() == endpoints.len(),
    ensures
        resolved_remotes(configured, endpoints, tokens, ca_certs) is Ok,
        ({
            let list = resolved_remotes(configured, endpoints, tokens, ca_certs)->Ok_0;
            let own = list[configured.len() + i];
            &&& list.len() == configured.len() + endpoints.len()
            &&& configured.is_prefix_of(list)
            &&& 0 <= i < endpoints.len() ==> {
                &&& own.endpoint == endpoints[i]
                &&& own.host is None
                &&& tokens.len() == 1 ==> own.token == tokens[0]
                &&& tokens.len() > 1 ==> own.token == tokens[i]
                &&& ca_certs.len() == 0 ==> own.ca_cert is None
                &&& ca_certs.len() == 1 ==> own.ca_cert == Some(ca_certs[0])
                &&& ca_certs.len() > 1 ==> own.ca_cert == Some(ca_certs[i])
            }
        }),
{
    let list = resolved_remotes(configured, endpoints, tokens, ca_certs)->Ok_0;
    assert(configured =~= list.subrange(0, configured.len() as int));
}

/// Without an endpoint among the options the configured services alone are
/// searched. Otherwise the tokens must be one or as many as the endpoints, and
/// then, if there are any, the certificates.
pub proof fn law_service_options_must_fit(
    configured: Seq<RemoteView>,
    endpoints: Seq<Seq<char>>,
    tokens: Seq<Seq<char>>,
    ca_certs: Seq<Seq<u8>>,
)
    ensures
        ({
            let out = resolved_remotes(configured, endpoints, tokens, ca_certs);
            let fit = tokens.len() == 1 || tokens.len() == endpoints.len();
            &&& endpoints.len() == 0 ==> out == Ok::<Seq<RemoteView>, RemoteOptionsError>(
                configured,
            )
            &&& endpoints.len() > 0 && !fit ==> out == Err::<Seq<RemoteView>, RemoteOptionsError>(
                RemoteOptionsError::TokenCount,
            )
            &&& endpoints.len() > 0 && fit && ca_certs.len() > 1 && ca_certs.len()
                != endpoints.len() ==> out == Err::<Seq<RemoteView>, RemoteOptionsError>(
                RemoteOptionsError::CaCertCount,
            )
        }),
{
}

/// What comes first counts; what comes second counts where the first is missing.
pub proof fn law_first_counts<T>(a: T, b: Option<T>)
    ensures
        first_of(Some(a), b) == Some(a),
        first_of(None, b) == b,
{
}

} // verus!
