//! The addresses of remote search services.
use crate::number;
use crate::text;
use vstd::prelude::*;
use vstd::slice::slice_subrange;

verus! {

/// The address of a remote search service.
pub struct HttpsEndpoint {
    pub host: String,
    pub port: u16,
    pub path: String,
}

/// The address of a remote search service, as mathematical values.
pub struct EndpointView {
    pub host: Seq<char>,
    pub port: int,
    pub path: Seq<char>,
}

impl View for HttpsEndpoint {
    type V = EndpointView;

    open spec fn view(&self) -> EndpointView {
        EndpointView { host: self.host@, port: self.port as int, path: self.path@ }
    }
}

/// Why a text is not the address of a search service. An invalid port comes
/// with the text that should have been a port.
pub enum EndpointError {
    NotHttps,
    InvalidPort(String),
    EmptyHost,
}

/// Why a text is not the address of a search service, as mathematical values.
pub enum EndpointProblem {
    NotHttps,
    InvalidPort(Seq<char>),
    EmptyHost,
}

impl View for EndpointError {
    type V = EndpointProblem;

    open spec fn view(&self) -> EndpointProblem {
        match *self {
            EndpointError::NotHttps => EndpointProblem::NotHttps,
            EndpointError::InvalidPort(port) => EndpointProblem::InvalidPort(port@),
            EndpointError::EmptyHost => EndpointProblem::EmptyHost,
        }
    }
}

/// What the user is told of a text that is not an address.
pub open spec fn problem_text(problem: EndpointProblem, endpoint: Seq<char>) -> Seq<char> {
    match problem {
        EndpointProblem::NotHttps => "only https:// zapper endpoints are supported: "@ + endpoint,
        EndpointProblem::InvalidPort(_) => "invalid endpoint port"@,
        EndpointProblem::EmptyHost => "endpoint host is empty: "@ + endpoint,
    }
}

impl EndpointError {
    /// What the user is told of the text that is not an address.
    pub fn message(&self, endpoint: &str) -> (s: String)
        ensures
            s@ == problem_text(self@, endpoint@),
    {
        match self {
            EndpointError::NotHttps => {
                let mut s = "only https:// zapper endpoints are supported: ".to_owned();
                s.append(endpoint);
                s
            },
            EndpointError::InvalidPort(_) => "invalid endpoint port".to_owned(),
            EndpointError::EmptyHost => {
                let mut s = "endpoint host is empty: ".to_owned();
                s.append(endpoint);
                s
            },
        }
    }
}

/// The host and the port in an authority. The port stands behind the last
/// colon; without a colon it is 443.
pub open spec fn host_and_port(authority: Seq<char>) -> Result<
    (Seq<char>, int),
    EndpointProblem,
> {
    match text::rsplit_once(authority, ':') {
        Some((host, port)) => match number::parse_unsigned(port, 65535) {
            Some(p) => Ok((host, p)),
            None => Err(EndpointProblem::InvalidPort(port)),
        },
        None => Ok((authority, 443)),
    }
}

/// The path that is asked for: `/search` unless the address names another.
pub open spec fn search_path(path: Seq<char>) -> Seq<char> {
    if path.len() == 0 {
        "/search"@
    } else {
        "/"@ + path
    }
}

/// What an address means: `https://`, a host, an optional port, an optional
/// path. A wrong port is reported before an empty host.
pub open spec fn endpoint_of(endpoint: Seq<char>) -> Result<EndpointView, EndpointProblem> {
    if !"https://"@.is_prefix_of(endpoint) {
        Err(EndpointProblem::NotHttps)
    } else {
        let rest = endpoint.skip("https://"@.len() as int);
        let (authority, path) = match text::split_once(rest, '/') {
            Some(parts) => parts,
            None => (rest, "search"@),
        };
        match host_and_port(authority) {
            Ok((host, port)) => if host.len() == 0 {
                Err(EndpointProblem::EmptyHost)
            } else {
                Ok(EndpointView { host, port, path: search_path(path) })
            },
            Err(problem) => Err(problem),
        }
    }
}

/// An address without a port means port 443, and one without a path means the
/// path of the search. The host is not empty and has neither `/` nor `:`.
pub proof fn law_port_is_optional(host: Seq<char>, path: Seq<char>)
    requires
        host.len() > 0,
        !host.contains('/'),
        !host.contains(':'),
    ensures
        endpoint_of("https://"@ + host) == Ok::<EndpointView, EndpointProblem>(
            EndpointView { host, port: 443, path: "/search"@ },
        ),
        endpoint_of("https://"@ + host + seq!['/'] + path) == Ok::<EndpointView, EndpointProblem>(
            EndpointView { host, port: 443, path: search_path(path) },
        ),
{
    reveal_strlit("https://");
    reveal_strlit("/search");
    reveal_strlit("/");
    reveal_strlit("search");
    let n = "https://"@.len() as int;
    let short = "https://"@ + host;
    assert("https://"@ =~= short.subrange(0, n));
    assert(short.skip(n) =~= host);
    text::lemma_split_once_none(host, '/');
    text::lemma_split_once_none(host, ':');
    assert(search_path("search"@) =~= "/search"@);
    let long = "https://"@ + host + seq!['/'] + path;
    assert("https://"@ =~= long.subrange(0, n));
    assert(long.skip(n) =~= host + seq!['/'] + path);
    text::lemma_split_once_is(host, '/', path);
}

/// A host, a port and a path are read back from the address that names them.
/// The host is not empty and has no `/`; it may have colons of its own.
pub proof fn law_endpoint_read_back(host: Seq<char>, port: nat, path: Seq<char>)
    requires
        host.len() > 0,
        !host.contains('/'),
        port <= 65535,
    ensures
        endpoint_of(
            "https://"@ + host + seq![':'] + number::decimal(port) + seq!['/'] + path,
        ) == Ok::<EndpointView, EndpointProblem>(
            EndpointView { host, port: port as int, path: search_path(path) },
        ),
{
    reveal_strlit("https://");
    let n = "https://"@.len() as int;
    let digits = number::decimal(port);
    number::law_decimal_read_back(port, 65535);
    let authority = host + seq![':'] + digits;
    let whole = "https://"@ + host + seq![':'] + digits + seq!['/'] + path;
    assert("https://"@ =~= whole.subrange(0, n));
    assert(whole.skip(n) =~= authority + seq!['/'] + path);
    assert forall|i: int| 0 <= i < authority.len() implies authority[i] != '/' by {
        if i < host.len() {
            assert(host.contains(host[i]));
        } else if i > host.len() {
            assert(number::is_digit(digits[i - host.len() - 1]));
        }
    }
    text::lemma_split_once_is(authority, '/', path);
    assert forall|i: int| 0 <= i < digits.len() implies digits[i] != ':' by {
        assert(number::is_digit(digits[i]));
    }
    text::lemma_rsplit_once_is(host, ':', digits);
}

/// Reads the address of a search service; see [`endpoint_of`].
pub fn parse_https_endpoint(endpoint: &str) -> (parsed: Result<HttpsEndpoint, EndpointError>)
    ensures
        match parsed {
            Ok(e) => endpoint_of(endpoint@) == Ok::<EndpointView, EndpointProblem>(e@),
            Err(e) => endpoint_of(endpoint@) == Err::<EndpointView, EndpointProblem>(e@),
        },
{
    let chars = text::chars_of(endpoint);
    if !text::starts_with(chars.as_slice(), "https://") {
        return Err(EndpointError::NotHttps);
    }
    proof {
        reveal_strlit("https://");
        reveal_strlit("/");
    }
    let rest = slice_subrange(chars.as_slice(), 8, chars.len());
    assert(rest@ =~= endpoint@.skip("https://"@.len() as int));
    let default_path = text::chars_of("search");
    let (authority, path) = match text::split_at_char(rest, '/') {
        Some((authority, path)) => (authority, path),
        None => (rest, default_path.as_slice()),
    };
    let (host, port) = match text::split_at_last_char(authority, ':') {
        Some((host, port)) => match number::read_unsigned(port, 65535) {
            Some(p) => (text::string_of(host), p as u16),
            None => {
                return Err(EndpointError::InvalidPort(text::string_of(port)));
            },
        },
        None => (text::string_of(authority), 443u16),
    };
    if host.as_str().is_empty() {
        return Err(EndpointError::EmptyHost);
    }
    let path = if path.len() == 0 {
        "/search".to_owned()
    } else {
        let mut s = "/".to_owned();
        s.append(text::string_of(path).as_str());
        s
    };
    Ok(HttpsEndpoint { host, port, path })
}

/// The host and the port to connect to, as text.
pub open spec fn address_text(endpoint: EndpointView) -> Seq<char> {
    endpoint.host + ":"@ + number::decimal(endpoint.port as nat)
}

impl HttpsEndpoint {
    /// The host and the port to connect to; see [`address_text`].
    pub fn address(&self) -> (s: String)
        ensures
            s@ == address_text(self@),
    {
        let mut s = self.host.clone();
        s.append(":");
        number::push_decimal(&mut s, self.port as u64);
        s
    }
}

/// The path that is asked for starts with a slash; where the address names none it
/// is that of the search.
pub proof fn law_path_that_is_asked_for(path: Seq<char>)
    ensures
        path.len() > 0 ==> search_path(path) == seq!['/'] + path,
        path.len() == 0 ==> search_path(path) == "/search"@,
{
    reveal_strlit("/");
    assert("/"@ + path =~= seq!['/'] + path);
}

/// What stands behind the last colon of the authority is the port. Where it is a
/// number up to 65535 the address has that port; where it is not, that text is
/// reported. A wrong port is reported before an empty host.
pub proof fn law_port_is_read(host: Seq<char>, port: Seq<char>, path: Seq<char>)
    requires
        !host.contains('/'),
        !port.contains('/'),
        !port.contains(':'),
    ensures
        ({
            let short = endpoint_of("https://"@ + host + seq![':'] + port);
            let long = endpoint_of("https://"@ + host + seq![':'] + port + seq!['/'] + path);
            match number::parse_unsigned(port, 65535) {
                Some(p) => if host.len() > 0 {
                    &&& short == Ok::<EndpointView, EndpointProblem>(
                        EndpointView { host, port: p, path: "/search"@ },
                    )
                    &&& long == Ok::<EndpointView, EndpointProblem>(
                        EndpointView { host, port: p, path: search_path(path) },
                    )
                } else {
                    &&& short == Err::<EndpointView, EndpointProblem>(EndpointProblem::EmptyHost)
                    &&& long == Err::<EndpointView, EndpointProblem>(EndpointProblem::EmptyHost)
                },
                None => {
                    &&& short == Err::<EndpointView, EndpointProblem>(
                        EndpointProblem::InvalidPort(port),
                    )
                    &&& long == Err::<EndpointView, EndpointProblem>(
                        EndpointProblem::InvalidPort(port),
                    )
                },
            }
        }),
{
    reveal_strlit("https://");
    reveal_strlit("search");
    reveal_strlit("/search");
    reveal_strlit("/");
    let n = "https://"@.len() as int;
    let authority = host + seq![':'] + port;
    let short = "https://"@ + host + seq![':'] + port;
    let long = "https://"@ + host + seq![':'] + port + seq!['/'] + path;
    assert("https://"@ =~= short.subrange(0, n));
    assert("https://"@ =~= long.subrange(0, n));
    assert(short.skip(n) =~= authority);
    assert(long.skip(n) =~= authority + seq!['/'] + path);
    assert forall|i: int| 0 <= i < authority.len() implies authority[i] != '/' by {
        if i < host.len() {
            assert(host.contains(host[i]));
        } else if i > host.len() {
            assert(port.contains(port[i - host.len() - 1]));
        }
    }
    text::lemma_split_once_is(authority, '/', path);
    text::lemma_split_once_none(authority, '/');
    text::lemma_rsplit_once_is(host, ':', port);
    assert(search_path("search"@) =~= "/search"@);
}

/// An address without a host is refused, and so is all that does not start with
/// `https://`.
pub proof fn law_no_address(s: Seq<char>)
    ensures
        !"https://"@.is_prefix_of(s) ==> endpoint_of(s) == Err::<EndpointView, EndpointProblem>(
            EndpointProblem::NotHttps,
        ),
        endpoint_of("https://"@) == Err::<EndpointView, EndpointProblem>(
            EndpointProblem::EmptyHost,
        ),
        endpoint_of("https://"@ + seq!['/'] + s) == Err::<EndpointView, EndpointProblem>(
            EndpointProblem::EmptyHost,
        ),
{
    reveal_strlit("https://");
    let n = "https://"@.len() as int;
    let none = Seq::<char>::empty();
    assert("https://"@ =~= "https://"@.subrange(0, n));
    assert("https://"@.skip(n) =~= none);
    text::lemma_split_once_none(none, '/');
    text::lemma_split_once_none(none, ':');
    let long = "https://"@ + seq!['/'] + s;
    assert("https://"@ =~= long.subrange(0, n));
    assert(long.skip(n) =~= none + seq!['/'] + s);
    text::lemma_split_once_is(none, '/', s);
}

/// The address to connect to is the host, a colon and the port.
pub proof fn law_address(endpoint: EndpointView)
    ensures
        address_text(endpoint) == endpoint.host + seq![':'] + number::decimal(
            endpoint.port as nat,
        ),
{
    reveal_strlit(":");
    assert(":"@ =~= seq![':']);
}

} // verus!
