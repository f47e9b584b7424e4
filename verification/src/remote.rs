//! Asking a remote search service.
use crate::api;
use crate::api::ApiSearchResponse;
use crate::config::RemoteConfig;
use crate::display;
use crate::display::{DisplayMatch, DisplayView};
use crate::encoding;
use crate::endpoint;
use crate::endpoint::{EndpointError, EndpointProblem, EndpointView, HttpsEndpoint};
use crate::number;
use crate::search;
use crate::text;
use crate::text_laws;
use crate::url;
use vstd::prelude::*;
use vstd::slice::{slice_subrange, slice_to_vec};

verus! {

/// The target of a search: the path, and a query with the keyword and the limit.
pub open spec fn search_target(path: Seq<char>, keyword: Seq<char>, limit: nat) -> Seq<char> {
    path + "?q="@ + url::percent_encoded(keyword) + "&limit="@ + number::decimal(limit)
}

/// The request for a search. The token goes with it in two headers.
pub open spec fn request_text(
    endpoint: EndpointView,
    token: Seq<char>,
    keyword: Seq<char>,
    limit: nat,
) -> Seq<char> {
    "GET "@ + search_target(endpoint.path, keyword, limit) + " HTTP/1.1\r\nHost: "@ + endpoint.host
        + "\r\nAuthorization: Bearer "@ + token + "\r\nX-Zap-Token: "@ + token
        + "\r\nAccept: application/json\r\nConnection: close\r\n\r\n"@
}

/// Writes the request for a search; see [`request_text`].
pub fn search_request(
    endpoint: &HttpsEndpoint,
    token: &str,
    keyword: &str,
    limit: usize,
) -> (request: String)
    ensures
        request@ == request_text(endpoint@, token@, keyword@, limit as nat),
{
    let mut request = "GET ".to_owned();
    let mut target = endpoint.path.clone();
    target.append("?q=");
    target.append(url::percent_encode(keyword).as_str());
    target.append("&limit=");
    number::push_decimal(&mut target, limit as u64);
    request.append(target.as_str());
    request.append(" HTTP/1.1\r\nHost: ");
    request.append(endpoint.host.as_str());
    request.append("\r\nAuthorization: Bearer ");
    request.append(token);
    request.append("\r\nX-Zap-Token: ");
    request.append(token);
    request.append("\r\nAccept: application/json\r\nConnection: close\r\n\r\n");
    request
}

/// What has to be known to ask a remote service.
pub struct RemoteQuery {
    pub endpoint: HttpsEndpoint,
    pub ca_cert: Vec<u8>,
    pub request: String,
}

/// Why a remote service cannot be asked.
pub enum RemoteError {
    Endpoint(EndpointError),
    NoCaCert,
}

/// What the user is told where no CA certificate is given for a service.
pub open spec fn no_ca_cert_text() -> Seq<char> {
    "remote CA certificate is required for HTTPS; use --remote-ca-cert or config remotes[].ca_cert"@
}

impl RemoteError {
    /// What the user is told of a service that cannot be asked.
    pub fn message(&self, endpoint: &str) -> (s: String)
        ensures
            s@ == (match *self {
                RemoteError::Endpoint(e) => endpoint::problem_text(e@, endpoint@),
                RemoteError::NoCaCert => no_ca_cert_text(),
            }),
    {
        match self {
            RemoteError::Endpoint(e) => e.message(endpoint),
            RemoteError::NoCaCert =>
                "remote CA certificate is required for HTTPS; use --remote-ca-cert or config remotes[].ca_cert".to_owned(),
        }
    }
}

/// Prepares a search on a remote service: where to connect, the certificate to
/// check the service with, and the request. A wrong address is reported before
/// a missing certificate.
pub fn prepare_remote(
    remote: &RemoteConfig,
    keyword: &str,
    limit: usize,
) -> (query: Result<RemoteQuery, RemoteError>)
    ensures
        match query {
            Ok(q) => {
                &&& endpoint::endpoint_of(remote.endpoint@) == Ok::<
                    EndpointView,
                    EndpointProblem,
                >(q.endpoint@)
                &&& remote.ca_cert is Some
                &&& q.ca_cert@ == remote.ca_cert->0@
                &&& q.request@ == request_text(
                    q.endpoint@,
                    remote.token@,
                    keyword@,
                    limit as nat,
                )
            },
            Err(RemoteError::Endpoint(e)) => endpoint::endpoint_of(remote.endpoint@) == Err::<
                EndpointView,
                EndpointProblem,
            >(e@),
            Err(RemoteError::NoCaCert) => endpoint::endpoint_of(remote.endpoint@) is Ok
                && remote.ca_cert is None,
        },
{
    let endpoint = match endpoint::parse_https_endpoint(remote.endpoint.as_str()) {
        Ok(endpoint) => endpoint,
        Err(e) => {
            return Err(RemoteError::Endpoint(e));
        },
    };
    match &remote.ca_cert {
        Some(ca_cert) => {
            let request = search_request(&endpoint, remote.token.as_str(), keyword, limit);
            Ok(RemoteQuery { endpoint, ca_cert: slice_to_vec(ca_cert.as_slice()), request })
        },
        None => Err(RemoteError::NoCaCert),
    }
}

/// Why a reply is of no use.
#[derive(Debug, Clone, Copy, PartialEq, Eq, Structural)]
pub enum ReplyError {
    /// No empty line ends the head.
    NoHead,
    /// The first line has no status.
    NoStatus,
    /// The status says that the request failed.
    Failed(u16),
}

impl ReplyError {
    /// What the user is told of a reply that is of no use.
    pub fn message(&self) -> (s: String)
        ensures
            s@ == (match *self {
                ReplyError::NoHead => "invalid HTTP response"@,
                ReplyError::NoStatus => "invalid HTTP status"@,
                ReplyError::Failed(status) => "remote API returned HTTP "@ + number::decimal(
                    status as nat,
                ),
            }),
    {
        match *self {
            ReplyError::NoHead => "invalid HTTP response".to_owned(),
            ReplyError::NoStatus => "invalid HTTP status".to_owned(),
            ReplyError::Failed(status) => {
                let mut s = "remote API returned HTTP ".to_owned();
                number::push_decimal(&mut s, status as u64);
                s
            },
        }
    }
}

/// The bytes that end the head of a reply: two line ends, one right behind the
/// other.
pub open spec fn head_end() -> Seq<u8> {
    seq![13u8, 10u8, 13u8, 10u8]
}

/// The status in the head of a reply: the second word of its first line.
pub open spec fn status_of(head: Seq<char>) -> Option<int> {
    let lines = text::lines(head);
    if lines.len() == 0 {
        None
    } else {
        let words = text::words(lines[0]);
        if words.len() < 2 {
            None
        } else {
            number::parse_unsigned(words[1], 65535)
        }
    }
}

/// Reads the status in the head of a reply; see [`status_of`].
pub fn read_status(head: &str) -> (status: Option<u16>)
    ensures
        match status {
            Some(n) => status_of(head@) == Some(n as int),
            None => status_of(head@) is None,
        },
{
    let chars = text::chars_of(head);
    let lines = text::split_lines(chars.as_slice());
    let ghost all = text::lines(head@);
    if lines.len() == 0 {
        return None;
    }
    assert(all[0] == lines@[0]@);
    let first = text::chars_of(lines[0].as_str());
    let words = text::split_words(first.as_slice());
    if words.len() < 2 {
        return None;
    }
    assert(text::words(all[0])[1] == words@[1]@);
    let digits = text::chars_of(words[1].as_str());
    match number::read_unsigned(digits.as_slice(), 65535) {
        Some(n) => Some(n as u16),
        None => None,
    }
}

/// What a reply says: its body, where the status is 200.
pub open spec fn reply_of(reply: Seq<u8>) -> Result<Seq<u8>, ReplyError> {
    match search::next_occurrence(reply, head_end(), 0) {
        Some(at) => match status_of(encoding::lossy(reply.take(at))) {
            Some(status) => if status == 200 {
                Ok(reply.skip(at + 4))
            } else {
                Err(ReplyError::Failed(status as u16))
            },
            None => Err(ReplyError::NoStatus),
        },
        None => Err(ReplyError::NoHead),
    }
}

/// Reads a reply and gives its body; see [`reply_of`].
pub fn read_reply(reply: &[u8]) -> (body: Result<Vec<u8>, ReplyError>)
    ensures
        match body {
            Ok(b) => reply_of(reply@) == Ok::<Seq<u8>, ReplyError>(b@),
            Err(e) => reply_of(reply@) == Err::<Seq<u8>, ReplyError>(e),
        },
{
    let mut end: Vec<u8> = Vec::new();
    end.push(13);
    end.push(10);
    end.push(13);
    end.push(10);
    assert(end@ =~= head_end());
    let size = reply.len();
    match search::find_next(reply, end.as_slice(), 0) {
        Some(at) => {
            let head = slice_subrange(reply, 0, at);
            assert(head@ =~= reply@.take(at as int));
            let shown = encoding::decode_lossy(head);
            match read_status(shown.as_str()) {
                Some(status) => if status == 200 {
                    let body = slice_subrange(reply, at + 4, size);
                    assert(body@ =~= reply@.skip(at + 4));
                    Ok(slice_to_vec(body))
                } else {
                    Err(ReplyError::Failed(status))
                },
                None => Err(ReplyError::NoStatus),
            }
        },
        None => Err(ReplyError::NoHead),
    }
}

/// The name under which the results of a service are shown: the configured one,
/// else the one that the service gives, else the host of its address. Empty
/// names are passed over.
pub open spec fn remote_label(
    configured: Option<Seq<char>>,
    given: Seq<char>,
    host: Seq<char>,
) -> Seq<char> {
    match configured {
        Some(name) if name.len() > 0 => name,
        _ => if given.len() > 0 {
            given
        } else {
            host
        },
    }
}

/// A result of a service as it is shown: the name of the service, a colon and
/// the path.
pub open spec fn remote_shown(label: Seq<char>, m: DisplayView) -> DisplayView {
    DisplayView {
        path: label + ":"@ + m.path,
        line_number: m.line_number,
        column: m.column,
        line: m.line,
    }
}

/// The results of a service as they are shown.
pub open spec fn remote_results(label: Seq<char>, matches: Seq<DisplayView>) -> Seq<DisplayView> {
    matches.map_values(|m: DisplayView| remote_shown(label, m))
}

/// Makes the results to show of the answer that a remote service gave; see
/// [`remote_results`].
pub fn search_remote(
    remote: &RemoteConfig,
    endpoint: &HttpsEndpoint,
    response: ApiSearchResponse,
) -> (results: Vec<DisplayMatch>)
    ensures
        display::display_views(results@) == remote_results(
            remote_label(text::optional_text(remote.host), response.host@, endpoint.host@),
            api::api_views(response.matches@),
        ),
        results@.len() == response.matches@.len(),
        forall|i: int|
            0 <= i < results@.len() ==> {
                &&& (#[trigger] results@[i]).path@ == remote_label(
                    text::optional_text(remote.host),
                    response.host@,
                    endpoint.host@,
                ) + seq![':'] + response.matches@[i].path@
                &&& results@[i].line_number == response.matches@[i].line_number
                &&& results@[i].column == response.matches@[i].column
                &&& results@[i].line@ == response.matches@[i].line@
            },
{
    let ghost answered = response.matches@;
    let given = response.host;
    let label = match &remote.host {
        Some(name) if !name.as_str().is_empty() => name.clone(),
        _ => if given.as_str().is_empty() {
            endpoint.host.clone()
        } else {
            given
        },
    };
    let ghost all = remote_results(label@, api::api_views(response.matches@));
    let mut results: Vec<DisplayMatch> = Vec::new();
    assert(display::display_views(results@) =~= all.take(0));
    for m in it: response.matches.into_iter()
        invariant
            all == remote_results(label@, api::api_views(it.seq())),
            display::display_views(results@) == all.take(it.index()),
    {
        let ghost before = results@;
        let mut path = label.clone();
        path.append(":");
        path.append(m.path.as_str());
        let item = DisplayMatch {
            path,
            line_number: m.line_number,
            column: m.column,
            line: m.line,
        };
        assert(item@ == all[it.index()]);
        results.push(item);
        assert(display::display_views(results@) =~= display::display_views(before).push(item@));
        assert(all.take(it.index() + 1) =~= all.take(it.index()).push(item@));
    }
    assert(all.take(all.len() as int) =~= all);
    assert(display::display_views(results@).len() == results@.len());
    assert forall|i: int| 0 <= i < results@.len() implies {
        &&& (#[trigger] results@[i]).path@ == label@ + seq![':'] + answered[i].path@
        &&& results@[i].line_number == answered[i].line_number
        &&& results@[i].column == answered[i].column
        &&& results@[i].line@ == answered[i].line@
    } by {
        law_every_remote_match_is_shown(label@, api::api_views(answered), i);
        assert(display::display_views(results@)[i] == results@[i]@);
        assert(api::api_views(answered)[i] == answered[i]@);
    }
    results
}

/// As many results are shown as the answer has matches, in their order. Each has the
/// line number, the column and the line of its match, and as its path the label, a
/// colon and the path of the match.
pub proof fn law_every_remote_match_is_shown(
    label: Seq<char>,
    matches: Seq<DisplayView>,
    i: int,
)
    ensures
        remote_results(label, matches).len() == matches.len(),
        0 <= i < matches.len() ==> {
            &&& remote_results(label, matches)[i].path == label + seq![':'] + matches[i].path
            &&& remote_results(label, matches)[i].line_number == matches[i].line_number
            &&& remote_results(label, matches)[i].column == matches[i].column
            &&& remote_results(label, matches)[i].line == matches[i].line
        },
{
    reveal_strlit(":");
    assert(":"@ =~= seq![':']);
}

/// A configured name goes before the one that the service gives, and that before
/// the host of the address; an empty name counts as none.
pub proof fn law_label_of_remote(name: Seq<char>, given: Seq<char>, host: Seq<char>)
    ensures
        name.len() > 0 ==> remote_label(Some(name), given, host) == name,
        given.len() > 0 ==> remote_label(None, given, host) == given,
        remote_label(Some(Seq::empty()), given, host) == remote_label(None, given, host),
        remote_label(None, Seq::empty(), host) == host,
{
}

/// The status is the number that the second word of the first line is; the lines
/// behind it do not matter.
pub proof fn law_status_is_second_word(
    version: Seq<char>,
    status: Seq<char>,
    reason: Seq<char>,
    rest: Seq<char>,
)
    requires
        !(version + seq![' '] + status + seq![' '] + reason).contains('\n'),
        text::words(version).len() == 1,
        text::words(status).len() == 1,
    ensures
        status_of(version + seq![' '] + status + seq![' '] + reason + seq!['\r', '\n'] + rest)
            == number::parse_unsigned(text::words(status)[0], 65535),
        status_of(Seq::empty()) is None,
{
    let line = version + seq![' '] + status + seq![' '] + reason;
    let head = line + seq!['\r', '\n'] + rest;
    text_laws::law_lines_add_up(line + seq!['\r', '\n'], rest);
    text_laws::law_line_is_kept(line);
    text_laws::law_line_is_kept(Seq::empty());
    assert(text::lines(head)[0] == line);
    text_laws::law_space_separates_words(version + seq![' '] + status, ' ', reason);
    text_laws::law_space_separates_words(version, ' ', status);
    assert(text::words(line)[1] == text::words(status)[0]);
}

/// A reply without an empty line is refused. Otherwise what stands before the first
/// one is its head: with the status 200 all that stands behind it is the body, with
/// another status that status is reported, and without one the reply is refused.
pub proof fn law_reply_is_read(head: Seq<char>, body: Seq<u8>)
    ensures
        ({
            let reply = vstd::utf8::encode_utf8(head) + seq![13u8, 10u8, 13u8, 10u8] + body;
            let at = vstd::utf8::encode_utf8(head).len() as int;
            let is_first = search::next_occurrence(reply, seq![13u8, 10u8, 13u8, 10u8], 0) == Some(
                at,
            );
            is_first ==> match status_of(head) {
                Some(status) => if status == 200 {
                    reply_of(reply) == Ok::<Seq<u8>, ReplyError>(body)
                } else {
                    reply_of(reply) == Err::<Seq<u8>, ReplyError>(
                        ReplyError::Failed(status as u16),
                    )
                },
                None => reply_of(reply) == Err::<Seq<u8>, ReplyError>(ReplyError::NoStatus),
            }
        }),
        search::next_occurrence(body, seq![13u8, 10u8, 13u8, 10u8], 0) is None ==> reply_of(body)
            == Err::<Seq<u8>, ReplyError>(ReplyError::NoHead),
{
    let start = vstd::utf8::encode_utf8(head);
    let reply = start + seq![13u8, 10u8, 13u8, 10u8] + body;
    let at = start.len() as int;
    assert(reply.take(at) =~= start);
    assert(reply.skip(at + 4) =~= body);
    text_laws::law_text_survives_encoding(head);
}

} // verus!
