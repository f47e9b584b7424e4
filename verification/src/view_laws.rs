//! What the mathematical values of the library's types hold of them: all of it, field
//! by field and item by item.
use crate::api;
use crate::api::{ApiMatch, ApiSession, ApiStep, StepView};
use crate::cli;
use crate::config;
use crate::config::{RemoteConfig, ZapConfig};
use crate::display;
use crate::display::DisplayMatch;
use crate::encoding;
use crate::endpoint;
use crate::endpoint::{EndpointError, EndpointProblem, HttpsEndpoint};
use crate::globs;
use crate::path;
use crate::remote;
use crate::scope;
use crate::scope::Scope;
use crate::search;
use crate::search::Match;
use crate::text;
use crate::tls;
use crate::tls::TlsError;
use crate::url;
use vstd::prelude::*;

verus! {

/// A list of strings has as many texts, and each is that of its string.
pub proof fn law_texts(list: Seq<String>, pairs: Seq<(String, String)>, value: String, i: int)
    ensures
        text::texts(list).len() == list.len(),
        0 <= i < list.len() ==> text::texts(list)[i] == list[i]@,
        url::pair_texts(pairs).len() == pairs.len(),
        0 <= i < pairs.len() ==> url::pair_texts(pairs)[i] == (pairs[i].0@, pairs[i].1@),
        text::optional_text(Some(value)) == Some(value@),
        text::optional_text(None) is None,
{
}

/// A list of byte vectors has as many lists of bytes, and each is that of its vector.
pub proof fn law_bytes(list: Seq<Vec<u8>>, forms: Seq<Vec<char>>, value: Vec<u8>, i: int)
    ensures
        path::byte_lists(list).len() == list.len(),
        0 <= i < list.len() ==> path::byte_lists(list)[i] == list[i]@,
        cli::arg_bytes(list).len() == list.len(),
        0 <= i < list.len() ==> cli::arg_bytes(list)[i] == list[i]@,
        search::form_texts(forms).len() == forms.len(),
        0 <= i < forms.len() ==> search::form_texts(forms)[i] == forms[i]@,
        path::optional_bytes(Some(value)) == Some(value@),
        path::optional_bytes(None) is None,
{
}

/// A match has a path, the numbers of its line and column, and the line.
pub proof fn law_matches(list: Seq<Match>, i: int)
    ensures
        search::match_views(list).len() == list.len(),
        0 <= i < list.len() ==> {
            &&& search::match_views(list)[i].path == list[i].path@
            &&& search::match_views(list)[i].line_number == list[i].line_number
            &&& search::match_views(list)[i].column == list[i].column
            &&& search::match_views(list)[i].line == list[i].line@
        },
{
}

/// A result has a path, the numbers of its line and column, and the line.
pub proof fn law_results(list: Seq<DisplayMatch>, i: int)
    ensures
        display::display_views(list).len() == list.len(),
        0 <= i < list.len() ==> {
            &&& display::display_views(list)[i] == list[i]@
            &&& list[i]@.path == list[i].path@
            &&& list[i]@.line_number == list[i].line_number
            &&& list[i]@.column == list[i].column
            &&& list[i]@.line == list[i].line@
        },
{
}

/// A match in an answer has a path, the numbers of its line and column, and the
/// line.
pub proof fn law_answered_matches(list: Seq<ApiMatch>, i: int)
    ensures
        api::api_views(list).len() == list.len(),
        0 <= i < list.len() ==> {
            &&& api::api_views(list)[i].path == list[i].path@
            &&& api::api_views(list)[i].line_number == list[i].line_number
            &&& api::api_views(list)[i].column == list[i].column
            &&& api::api_views(list)[i].line == list[i].line@
        },
{
}

/// A service has an endpoint, a token, a name and a certificate. The services of a
/// configuration are those that it lists; without a list there are none.
pub proof fn law_services(list: Vec<RemoteConfig>, config: ZapConfig, i: int)
    ensures
        config::remote_views(list@).len() == list@.len(),
        0 <= i < list@.len() ==> {
            &&& config::remote_views(list@)[i].endpoint == list@[i].endpoint@
            &&& config::remote_views(list@)[i].token == list@[i].token@
            &&& config::remote_views(list@)[i].host == text::optional_text(list@[i].host)
            &&& config::remote_views(list@)[i].ca_cert == path::optional_bytes(list@[i].ca_cert)
        },
        config.remotes == Some(list) ==> config::configured_remotes(config)
            == config::remote_views(list@),
        config.remotes is None ==> config::configured_remotes(config).len() == 0,
{
}

/// An address has a host, a port and a path.
pub proof fn law_addresses(address: HttpsEndpoint, port: String)
    ensures
        address@.host == address.host@,
        address@.port == address.port,
        address@.path == address.path@,
        EndpointError::NotHttps@ == EndpointProblem::NotHttps,
        EndpointError::EmptyHost@ == EndpointProblem::EmptyHost,
        EndpointError::InvalidPort(port)@ == EndpointProblem::InvalidPort(port@),
{
}

/// A step of a connection is what it is told to be, and a session has a first line
/// and header lines.
pub proof fn law_steps(
    session: ApiSession,
    status: u16,
    body: &'static str,
    keyword: String,
    limit: usize,
)
    ensures
        ApiStep::ReadLine@ == StepView::ReadLine,
        ApiStep::Close@ == StepView::Close,
        ApiStep::Reply(status, body)@ == StepView::Reply(status as int, body@),
        ApiStep::Search(keyword, limit)@ == StepView::Search(keyword@, limit as int),
        session@.request_line == text::optional_text(session.request_line),
        session@.headers == text::texts(session.headers@),
{
}

/// A scope holds what it was made of: the patterns of the files and those of the
/// directories, each completed, in order. It is made exactly where the patterns of
/// the files are globs that can be compiled together.
pub proof fn law_scope_is_made(
    result: Result<Scope, String>,
    root: Seq<u8>,
    home: Option<Seq<u8>>,
    all: bool,
    includes: Seq<Seq<char>>,
    watches: Seq<Seq<char>>,
    i: int,
)
    requires
        scope::is_scope_result(result, root, home, all, includes, watches),
    ensures
        result is Ok ==> {
            let made = result->Ok_0;
            let files = globs::set_globs(made.included);
            &&& made.root@ == root
            &&& path::optional_bytes(made.home) == home
            &&& made.all == all
            &&& files.len() == includes.len()
            &&& 0 <= i < includes.len() ==> files[i] == (
                scope::normalized(root, home, includes[i]),
                true,
            )
            &&& made.watch_globs().len() == watches.len()
            &&& 0 <= i < watches.len() ==> made.watch_globs()[i] == scope::normalized(
                root,
                home,
                watches[i],
            )
        },
        ({
            let whole = scope::all_normalized(root, home, includes);
            &&& result is Ok <==> globs::first_glob_error(whole) is None
                && globs::glob_set_compiles(globs::path_globs(whole))
            &&& result is Err && globs::first_glob_error(whole) is Some ==> globs::first_glob_error(
                whole,
            ) == Some(result->Err_0@)
        }),
{
}

/// What the user is told of an address that is none.
pub proof fn law_address_messages(given: Seq<char>, port: Seq<char>)
    ensures
        endpoint::problem_text(EndpointProblem::NotHttps, given)
            == "only https:// zapper endpoints are supported: "@ + given,
        endpoint::problem_text(EndpointProblem::InvalidPort(port), given)
            == "invalid endpoint port"@,
        endpoint::problem_text(EndpointProblem::EmptyHost, given) == "endpoint host is empty: "@
            + given,
        remote::no_ca_cert_text()
            == "remote CA certificate is required for HTTPS; use --remote-ca-cert or config remotes[].ca_cert"@,
{
}

/// What the user is told of a file with certificates or a key: what is wrong, and
/// its path.
pub proof fn law_file_messages(reason: String, file: Seq<u8>)
    ensures
        tls::tls_error_text(TlsError::Certificates(reason), file)
            == "could not parse certificate file "@ + encoding::lossy(file),
        tls::tls_error_text(TlsError::NoCertificates, file)
            == "TLS certificate file has no certificates: "@ + encoding::lossy(file),
        tls::tls_error_text(TlsError::Key(reason), file) == "could not parse private key "@
            + encoding::lossy(file),
        tls::tls_error_text(TlsError::NoKey, file) == "private key file has no key: "@
            + encoding::lossy(file),
        tls::tls_error_text(TlsError::Root(reason), file) == "could not add CA certificate "@
            + encoding::lossy(file),
{
}

} // verus!
