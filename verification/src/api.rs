//! The search service: what it makes of a request and what it answers.
use crate::display;
use crate::display::{DisplayMatch, DisplayView};
use crate::encoding;
use crate::index::Index;
use crate::number;
use crate::search;
use crate::search::search_index;
use crate::text;
use crate::url;
use vstd::prelude::*;
use vstd::utf8;

verus! {

/// The number of matches that are given where the request sets no limit.
pub const DEFAULT_LIMIT: usize = 200;

/// One match in the answer of a search service.
pub struct ApiMatch {
    pub path: String,
    pub line_number: usize,
    pub column: usize,
    pub line: String,
}

/// The answer of a search service.
pub struct ApiSearchResponse {
    pub host: String,
    pub matches: Vec<ApiMatch>,
}

impl View for ApiMatch {
    type V = DisplayView;

    open spec fn view(&self) -> DisplayView {
        DisplayView {
            path: self.path@,
            line_number: self.line_number as int,
            column: self.column as int,
            line: self.line@,
        }
    }
}

/// The matches in a list.
pub open spec fn api_views(list: Seq<ApiMatch>) -> Seq<DisplayView> {
    list.map_values(|m: ApiMatch| m@)
}

/// Makes the answer to a search: the label of this host and the matches of the
/// keyword, their paths as text.
pub fn search_response(
    index: &Index,
    host_label: &str,
    keyword: &str,
    limit: usize,
) -> (response: ApiSearchResponse)
    ensures
        response.host@ == host_label@,
        api_views(response.matches@) == display::all_shown(
            search::search_results(index.files@, keyword@, limit as int),
        ),
{
    let found = search_index(index, keyword, limit);
    let ghost all = display::all_shown(search::match_views(found@));
    let mut matches: Vec<ApiMatch> = Vec::new();
    assert(api_views(matches@) =~= all.take(0));
    for m in it: found.into_iter()
        invariant
            all == display::all_shown(search::match_views(it.seq())),
            api_views(matches@) == all.take(it.index()),
    {
        let ghost before = matches@;
        let shown = DisplayMatch::from(m);
        let item = ApiMatch {
            path: shown.path,
            line_number: shown.line_number,
            column: shown.column,
            line: shown.line,
        };
        assert(item@ == all[it.index()]);
        matches.push(item);
        assert(api_views(matches@) =~= api_views(before).push(item@));
        assert(all.take(it.index() + 1) =~= all.take(it.index()).push(item@));
    }
    assert(all.take(all.len() as int) =~= all);
    ApiSearchResponse { host: host_label.to_owned(), matches }
}

/// The words that go with a status.
pub open spec fn reason_text(status: int) -> Seq<char> {
    if status == 200 {
        "OK"@
    } else if status == 400 {
        "Bad Request"@
    } else if status == 401 {
        "Unauthorized"@
    } else if status == 404 {
        "Not Found"@
    } else if status == 405 {
        "Method Not Allowed"@
    } else {
        "Error"@
    }
}

/// The words that go with a status; see [`reason_text`].
pub fn reason_phrase(status: u16) -> (reason: &'static str)
    ensures
        reason@ == reason_text(status as int),
{
    match status {
        200 => "OK",
        400 => "Bad Request",
        401 => "Unauthorized",
        404 => "Not Found",
        405 => "Method Not Allowed",
        _ => "Error",
    }
}

/// The head of an answer, up to the empty line that ends it.
pub open spec fn response_head(status: int, content_type: Seq<char>, length: nat) -> Seq<char> {
    "HTTP/1.1 "@ + number::decimal(status as nat) + " "@ + reason_text(status)
        + "\r\nContent-Type: "@ + content_type + "\r\nContent-Length: "@ + number::decimal(length)
        + "\r\nConnection: close\r\n\r\n"@
}

/// An answer with a body of the given type.
pub open spec fn response_bytes(
    status: int,
    content_type: Seq<char>,
    body: Seq<u8>,
) -> Seq<u8> {
    utf8::encode_utf8(response_head(status, content_type, body.len())) + body
}

/// An answer in plain text.
pub open spec fn text_response(status: int, body: Seq<char>) -> Seq<u8> {
    response_bytes(status, "text/plain; charset=utf-8"@, utf8::encode_utf8(body))
}

/// An answer in JSON.
pub open spec fn json_response(status: int, body: Seq<u8>) -> Seq<u8> {
    response_bytes(status, "application/json"@, body)
}

fn write_response(stream: &mut Vec<u8>, status: u16, content_type: &str, body: &[u8])
    ensures
        final(stream)@ == old(stream)@ + response_bytes(status as int, content_type@, body@),
{
    let mut head = "HTTP/1.1 ".to_owned();
    number::push_decimal(&mut head, status as u64);
    head.append(" ");
    head.append(reason_phrase(status));
    head.append("\r\nContent-Type: ");
    head.append(content_type);
    head.append("\r\nContent-Length: ");
    number::push_decimal(&mut head, body.len() as u64);
    head.append("\r\nConnection: close\r\n\r\n");
    let mut bytes = encoding::bytes_of(head.as_str());
    let mut rest = vstd::slice::slice_to_vec(body);
    stream.append(&mut bytes);
    stream.append(&mut rest);
    assert(stream@ =~= old(stream)@ + response_bytes(status as int, content_type@, body@));
}

/// Appends an answer in plain text; see [`text_response`].
pub fn write_text_response(stream: &mut Vec<u8>, status: u16, body: &str)
    ensures
        final(stream)@ == old(stream)@ + text_response(status as int, body@),
{
    write_response(stream, status, "text/plain; charset=utf-8", body.as_bytes());
}

/// Appends an answer whose body is JSON; see [`json_response`].
pub fn write_json_response(stream: &mut Vec<u8>, status: u16, body: &[u8])
    ensures
        final(stream)@ == old(stream)@ + json_response(status as int, body@),
{
    write_response(stream, status, "application/json", body);
}

/// Whether a header line carries the token, either as a bearer token or in a
/// header of its own. The case of the header's name does not matter, nor does
/// white space around the name and the value.
pub open spec fn carries_token(line: Seq<char>, token: Seq<char>) -> bool {
    match text::split_once(line, ':') {
        Some((name, value)) => {
            ||| text::same_ignoring_case(text::trim(name), "authorization"@) && text::trim(value)
                == "Bearer "@ + token
            ||| text::same_ignoring_case(text::trim(name), "x-zap-token"@) && text::trim(value)
                == token
        },
        None => false,
    }
}

/// Whether one of the header lines carries the token.
pub open spec fn is_authorized(headers: Seq<Seq<char>>, token: Seq<char>) -> bool {
    exists|i: int| 0 <= i < headers.len() && #[trigger] carries_token(headers[i], token)
}

fn line_carries_token(line: &str, token: &str) -> (yes: bool)
    ensures
        yes == carries_token(line@, token@),
{
    let chars = text::chars_of(line);
    match text::split_at_char(chars.as_slice(), ':') {
        Some((name, value)) => {
            let name = text::trimmed(name);
            let value = text::string_of(text::trimmed(value));
            let mut bearer = "Bearer ".to_owned();
            bearer.append(token);
            let authorization = text::chars_of("authorization");
            let own = text::chars_of("x-zap-token");
            (text::equal_ignoring_case(name, authorization.as_slice()) && text::same_text(
                value.as_str(),
                bearer.as_str(),
            )) || (text::equal_ignoring_case(name, own.as_slice()) && text::same_text(
                value.as_str(),
                token,
            ))
        },
        None => false,
    }
}

/// Whether one of the header lines carries the token; see [`is_authorized`].
pub fn api_token_matches(headers: &[String], token: &str) -> (yes: bool)
    ensures
        yes == is_authorized(text::texts(headers@), token@),
{
    let ghost all = text::texts(headers@);
    let mut i: usize = 0;
    while i < headers.len()
        invariant
            i <= headers@.len(),
            all == text::texts(headers@),
            forall|j: int| 0 <= j < i ==> !#[trigger] carries_token(all[j], token@),
        decreases headers@.len() - i,
    {
        assert(all[i as int] == headers@[i as int]@);
        if line_carries_token(headers[i].as_str(), token) {
            assert(carries_token(all[i as int], token@));
            return true;
        }
        i += 1;
    }
    false
}

/// What a query asks for: the keyword, if there is one, and the limit.
pub struct QueryView {
    pub keyword: Option<Seq<char>>,
    pub limit: int,
}

/// What the pairs of a query ask for. Where a key comes more than once the last
/// one counts; a limit that is not a number is passed over.
pub open spec fn query_meaning(pairs: Seq<(Seq<char>, Seq<char>)>) -> QueryView
    decreases pairs.len(),
{
    if pairs.len() == 0 {
        QueryView { keyword: None, limit: DEFAULT_LIMIT as int }
    } else {
        let before = query_meaning(pairs.drop_last());
        let (key, value) = pairs.last();
        if key == "q"@ || key == "keyword"@ {
            QueryView { keyword: Some(value), limit: before.limit }
        } else if key == "limit"@ {
            match number::parse_unsigned(value, usize::MAX as int) {
                Some(limit) => QueryView { keyword: before.keyword, limit },
                None => before,
            }
        } else {
            before
        }
    }
}

fn read_query(query: &str) -> (meaning: (Option<String>, usize))
    ensures
        query_meaning(url::query_pairs(query@)) == (QueryView {
            keyword: text::optional_text(meaning.0),
            limit: meaning.1 as int,
        }),
{
    let pairs = url::parse_query(query);
    let ghost all = url::query_pairs(query@);
    let mut keyword: Option<String> = None;
    let mut limit: usize = DEFAULT_LIMIT;
    assert(all.take(0) =~= Seq::<(Seq<char>, Seq<char>)>::empty());
    for pair in it: pairs.into_iter()
        invariant
            all == url::pair_texts(it.seq()),
            query_meaning(all.take(it.index())) == (QueryView {
                keyword: text::optional_text(keyword),
                limit: limit as int,
            }),
    {
        let (key, value) = pair;
        assert(all[it.index()] == (key@, value@));
        assert(all.take(it.index() + 1).drop_last() =~= all.take(it.index()));
        if text::same_text(key.as_str(), "q") || text::same_text(key.as_str(), "keyword") {
            keyword = Some(value);
        } else if text::same_text(key.as_str(), "limit") {
            let digits = text::chars_of(value.as_str());
            if let Some(n) = number::read_unsigned(digits.as_slice(), usize::MAX as u64) {
                limit = n as usize;
            }
        }
    }
    assert(all.take(all.len() as int) =~= all);
    (keyword, limit)
}

/// What the service does next with a connection.
pub enum ApiStep {
    /// It reads the next line.
    ReadLine,
    /// It closes the connection without an answer.
    Close,
    /// It answers in plain text.
    Reply(u16, &'static str),
    /// It searches the index for a keyword and answers with at most so many
    /// matches.
    Search(String, usize),
}

/// What the service does next with a connection, as mathematical values.
pub enum StepView {
    ReadLine,
    Close,
    Reply(int, Seq<char>),
    Search(Seq<char>, int),
}

impl View for ApiStep {
    type V = StepView;

    open spec fn view(&self) -> StepView {
        match *self {
            ApiStep::ReadLine => StepView::ReadLine,
            ApiStep::Close => StepView::Close,
            ApiStep::Reply(status, body) => StepView::Reply(status as int, body@),
            ApiStep::Search(keyword, limit) => StepView::Search(keyword@, limit as int),
        }
    }
}

/// The word at a position, or an empty text where there are too few words.
pub open spec fn word_at(s: Seq<char>, i: int) -> Seq<char> {
    let words = text::words(s);
    if i < words.len() {
        words[i]
    } else {
        Seq::empty()
    }
}

/// The path and the query of a target.
pub open spec fn path_and_query(target: Seq<char>) -> (Seq<char>, Seq<char>) {
    match text::split_once(target, '?') {
        Some(parts) => parts,
        None => (target, Seq::empty()),
    }
}

/// What the service does with a whole request. Only `GET` is allowed. The health
/// check is open to all; everything else needs the token.
pub open spec fn routed(
    request_line: Seq<char>,
    headers: Seq<Seq<char>>,
    token: Seq<char>,
) -> StepView {
    let target = word_at(request_line, 1);
    let (path, query) = path_and_query(target);
    let meaning = query_meaning(url::query_pairs(query));
    if word_at(request_line, 0) != "GET"@ {
        StepView::Reply(405, "method not allowed\n"@)
    } else if target == "/health"@ {
        StepView::Reply(200, "ok\n"@)
    } else if !is_authorized(headers, token) {
        StepView::Reply(401, "unauthorized\n"@)
    } else if path != "/search"@ {
        StepView::Reply(404, "not found\n"@)
    } else {
        match meaning.keyword {
            Some(keyword) => StepView::Search(keyword, meaning.limit),
            None => StepView::Reply(400, "missing q\n"@),
        }
    }
}

/// Decides what to do with a whole request; see [`routed`].
pub fn route_request(request_line: &str, headers: &[String], token: &str) -> (step: ApiStep)
    ensures
        step@ == routed(request_line@, text::texts(headers@), token@),
{
    let chars = text::chars_of(request_line);
    let words = text::split_words(chars.as_slice());
    let ghost all = text::words(request_line@);
    let empty = String::new();
    assert(empty@ =~= Seq::<char>::empty());
    let method = if words.len() > 0 {
        assert(all[0] == words@[0]@);
        words[0].as_str()
    } else {
        empty.as_str()
    };
    let target = if words.len() > 1 {
        assert(all[1] == words@[1]@);
        words[1].as_str()
    } else {
        empty.as_str()
    };
    if !text::same_text(method, "GET") {
        return ApiStep::Reply(405, "method not allowed\n");
    }
    if text::same_text(target, "/health") {
        return ApiStep::Reply(200, "ok\n");
    }
    if !api_token_matches(headers, token) {
        return ApiStep::Reply(401, "unauthorized\n");
    }
    let target_chars = text::chars_of(target);
    let (path, query) = match text::split_at_char(target_chars.as_slice(), '?') {
        Some((path, query)) => (text::string_of(path), text::string_of(query)),
        None => (text::string_of(target_chars.as_slice()), String::new()),
    };
    if !text::same_text(path.as_str(), "/search") {
        return ApiStep::Reply(404, "not found\n");
    }
    match read_query(query.as_str()) {
        (Some(keyword), limit) => ApiStep::Search(keyword, limit),
        (None, _) => ApiStep::Reply(400, "missing q\n"),
    }
}

/// The part of a request that has been read.
pub struct ApiSession {
    pub request_line: Option<String>,
    pub headers: Vec<String>,
}

/// The part of a request that has been read, as mathematical values.
pub struct SessionView {
    pub request_line: Option<Seq<char>>,
    pub headers: Seq<Seq<char>>,
}

impl View for ApiSession {
    type V = SessionView;

    open spec fn view(&self) -> SessionView {
        SessionView {
            request_line: text::optional_text(self.request_line),
            headers: text::texts(self.headers@),
        }
    }
}

/// A connection of which nothing has been read.
pub open spec fn new_session() -> SessionView {
    SessionView { request_line: None, headers: Seq::empty() }
}

/// What a line changes in a session. The end of the input counts as an empty
/// line.
pub open spec fn session_after(session: SessionView, line: Seq<char>) -> SessionView {
    match session.request_line {
        None => if text::trim(line).len() == 0 {
            session
        } else {
            SessionView { request_line: Some(line), headers: session.headers }
        },
        Some(first) => if text::trim_line_end(line).len() == 0 {
            session
        } else {
            SessionView {
                request_line: Some(first),
                headers: session.headers.push(text::trim_line_end(line)),
            }
        },
    }
}

/// What the service does when it has read a line. A first line that is blank
/// closes the connection; an empty line behind it ends the request.
pub open spec fn step_after(session: SessionView, line: Seq<char>, token: Seq<char>) -> StepView {
    match session.request_line {
        None => if text::trim(line).len() == 0 {
            StepView::Close
        } else {
            StepView::ReadLine
        },
        Some(first) => if text::trim_line_end(line).len() == 0 {
            routed(first, session.headers, token)
        } else {
            StepView::ReadLine
        },
    }
}

impl ApiSession {
    /// A connection of which nothing has been read.
    pub fn new() -> (session: ApiSession)
        ensures
            session@ == new_session(),
    {
        let session = ApiSession { request_line: None, headers: Vec::new() };
        assert(session@.headers =~= Seq::<Seq<char>>::empty());
        session
    }

    /// Takes the next line, as it was read, and says what to do; see
    /// [`step_after`].
    pub fn take_line(&mut self, line: &str, token: &str) -> (step: ApiStep)
        ensures
            final(self)@ == session_after(old(self)@, line@),
            step@ == step_after(old(self)@, line@, token@),
    {
        let chars = text::chars_of(line);
        match &self.request_line {
            None => {
                if text::trimmed(chars.as_slice()).len() == 0 {
                    return ApiStep::Close;
                }
                self.request_line = Some(line.to_owned());
                ApiStep::ReadLine
            },
            Some(first) => {
                let header = text::without_line_end(chars.as_slice());
                if header.len() == 0 {
                    return route_request(first.as_str(), self.headers.as_slice(), token);
                }
                let ghost before = self.headers@;
                let header = text::string_of(header);
                self.headers.push(header);
                assert(text::texts(self.headers@) =~= text::texts(before).push(header@));
                ApiStep::ReadLine
            },
        }
    }
}

/// What the service does in the end with a connection on which the given lines
/// come, and then the end of the input.
pub open spec fn served(
    session: SessionView,
    lines: Seq<Seq<char>>,
    token: Seq<char>,
) -> StepView
    decreases lines.len(),
{
    if lines.len() == 0 {
        step_after(session, Seq::empty(), token)
    } else {
        match step_after(session, lines[0], token) {
            StepView::ReadLine => served(
                session_after(session, lines[0]),
                lines.drop_first(),
                token,
            ),
            step => step,
        }
    }
}

/// The lines of the input as they are read: each with the line feed that ends
/// it, but for the last one, which may have none.
pub open spec fn read_lines(input: Seq<char>) -> Seq<Seq<char>>
    decreases input.len(),
{
    if input.len() == 0 {
        Seq::empty()
    } else {
        let at = text::first_index(input, '\n');
        if 0 <= at < input.len() {
            seq![input.take(at + 1)] + read_lines(input.skip(at + 1))
        } else {
            seq![input]
        }
    }
}

/// Five statuses have words of their own; every other one is an error.
pub proof fn law_reasons(status: int)
    ensures
        reason_text(200) == "OK"@,
        reason_text(400) == "Bad Request"@,
        reason_text(401) == "Unauthorized"@,
        reason_text(404) == "Not Found"@,
        reason_text(405) == "Method Not Allowed"@,
        status != 200 && status != 400 && status != 401 && status != 404 && status != 405
            ==> reason_text(status) == "Error"@,
{
}

/// A header line carries the token exactly where it is the name of one of the two
/// headers, a colon and the token; before the token stands `Bearer` and a space in
/// the one of them. White space around the name and the value does not matter, nor
/// does the case of the name. A line without a colon carries none.
pub proof fn law_token_in_header(name: Seq<char>, value: Seq<char>, token: Seq<char>)
    requires
        !name.contains(':'),
    ensures
        carries_token(name + seq![':'] + value, token) <==> {
            ||| text::same_ignoring_case(text::trim(name), "authorization"@) && text::trim(value)
                == "Bearer "@ + token
            ||| text::same_ignoring_case(text::trim(name), "x-zap-token"@) && text::trim(value)
                == token
        },
        !carries_token(name, token),
{
    text::lemma_split_once_is(name, ':', value);
    text::lemma_split_once_none(name, ':');
}

/// Nobody is let in by a header line for two tokens.
pub proof fn law_header_carries_one_token(line: Seq<char>, a: Seq<char>, b: Seq<char>)
    requires
        carries_token(line, a),
        carries_token(line, b),
    ensures
        a == b,
{
    reveal_strlit("authorization");
    reveal_strlit("x-zap-token");
    let n = "Bearer "@.len() as int;
    assert(("Bearer "@ + a).skip(n) =~= a);
    assert(("Bearer "@ + b).skip(n) =~= b);
}

/// A further pair of a query changes its meaning in one way: `q` and `keyword` set
/// the keyword, `limit` the limit if its value is a number, and any other key
/// changes nothing. Before all pairs there is no keyword, and the limit is 200.
pub proof fn law_pair_changes_meaning(
    pairs: Seq<(Seq<char>, Seq<char>)>,
    key: Seq<char>,
    value: Seq<char>,
)
    ensures
        ({
            let before = query_meaning(pairs);
            let after = query_meaning(pairs.push((key, value)));
            let is_keyword = key == "q"@ || key == "keyword"@;
            let number = number::parse_unsigned(value, usize::MAX as int);
            &&& is_keyword ==> after.keyword == Some(value) && after.limit == before.limit
            &&& !is_keyword ==> after.keyword == before.keyword
            &&& key == "limit"@ && number is Some ==> after.limit == number->0
            &&& key != "limit"@ || number is None ==> after.limit == before.limit
        }),
        query_meaning(Seq::empty()).keyword is None,
        query_meaning(Seq::empty()).limit == 200,
{
    reveal_strlit("q");
    reveal_strlit("keyword");
    reveal_strlit("limit");
    assert("q"@.len() == 1 && "keyword"@.len() == 7 && "limit"@.len() == 5);
    assert(pairs.push((key, value)).drop_last() =~= pairs);
}

/// The words of a request line are counted from 0; a word that is missing is empty.
/// A target is split at its first question mark.
pub proof fn law_words_and_targets(
    line: Seq<char>,
    i: int,
    path: Seq<char>,
    query: Seq<char>,
)
    requires
        !path.contains('?'),
        0 <= i,
    ensures
        i < text::words(line).len() ==> word_at(line, i) == text::words(line)[i],
        i >= text::words(line).len() ==> word_at(line, i).len() == 0,
        path_and_query(path + seq!['?'] + query) == (path, query),
        path_and_query(path) == (path, Seq::<char>::empty()),
{
    text::lemma_split_once_is(path, '?', query);
    text::lemma_split_once_none(path, '?');
}

/// A request whose method is not `GET` is answered with 405, and no other is.
pub proof fn law_other_methods_are_refused(
    line: Seq<char>,
    headers: Seq<Seq<char>>,
    token: Seq<char>,
)
    ensures
        word_at(line, 0) != "GET"@ ==> routed(line, headers, token) == StepView::Reply(
            405,
            "method not allowed\n"@,
        ),
        word_at(line, 0) == "GET"@ ==> !(routed(line, headers, token) matches StepView::Reply(
            status,
            _,
        ) && status == 405),
{
}

/// Without a header that carries the token, everything but the health check is
/// answered with 401, whatever is asked for.
pub proof fn law_without_token_is_refused(
    line: Seq<char>,
    headers: Seq<Seq<char>>,
    token: Seq<char>,
)
    requires
        word_at(line, 0) == "GET"@,
        word_at(line, 1) != "/health"@,
        forall|i: int| 0 <= i < headers.len() ==> !#[trigger] carries_token(headers[i], token),
    ensures
        routed(line, headers, token) == StepView::Reply(401, "unauthorized\n"@),
{
}

/// With a header that carries the token, only the path of the search is known. A
/// query without a keyword is answered with 400, and one with a keyword is searched
/// for, with the limit that it sets.
pub proof fn law_with_token_is_served(
    line: Seq<char>,
    headers: Seq<Seq<char>>,
    token: Seq<char>,
    i: int,
)
    requires
        word_at(line, 0) == "GET"@,
        word_at(line, 1) != "/health"@,
        0 <= i < headers.len(),
        carries_token(headers[i], token),
    ensures
        ({
            let (path, query) = path_and_query(word_at(line, 1));
            let meaning = query_meaning(url::query_pairs(query));
            let step = routed(line, headers, token);
            &&& path != "/search"@ ==> step == StepView::Reply(404, "not found\n"@)
            &&& path == "/search"@ && meaning.keyword is None ==> step == StepView::Reply(
                400,
                "missing q\n"@,
            )
            &&& path == "/search"@ && meaning.keyword is Some ==> step == StepView::Search(
                meaning.keyword->0,
                meaning.limit,
            )
        }),
{
}

proof fn lemma_headers_are_collected(
    first: Seq<char>,
    known: Seq<Seq<char>>,
    lines: Seq<Seq<char>>,
    rest: Seq<Seq<char>>,
    token: Seq<char>,
)
    requires
        forall|i: int|
            0 <= i < lines.len() ==> text::trim_line_end(#[trigger] lines[i]).len() > 0,
        rest.len() == 0 || text::trim_line_end(rest[0]).len() == 0,
    ensures
        served(
            SessionView { request_line: Some(first), headers: known },
            lines + rest,
            token,
        ) == routed(
            first,
            known + lines.map_values(|l: Seq<char>| text::trim_line_end(l)),
            token,
        ),
    decreases lines.len(),
{
    let session = SessionView { request_line: Some(first), headers: known };
    let kept = lines.map_values(|l: Seq<char>| text::trim_line_end(l));
    let all = lines + rest;
    if lines.len() == 0 {
        assert(all =~= rest);
        assert(known + kept =~= known);
        if rest.len() > 0 {
            assert(all[0] == rest[0]);
        } else {
            assert(text::trim_line_end(Seq::<char>::empty()).len() == 0);
        }
    } else {
        let line = lines[0];
        assert(text::trim_line_end(line).len() > 0);
        assert(all[0] == line);
        let others = lines.drop_first();
        assert(all.drop_first() =~= others + rest);
        let more = known.push(text::trim_line_end(line));
        assert forall|i: int| 0 <= i < others.len() implies text::trim_line_end(
            #[trigger] others[i],
        ).len() > 0 by {
            assert(others[i] == lines[i + 1]);
        }
        lemma_headers_are_collected(first, more, others, rest, token);
        assert(more + others.map_values(|l: Seq<char>| text::trim_line_end(l)) =~= known + kept);
    }
}

/// A request is its first line and the header lines behind it, up to the first
/// empty line or the end of the input: all of them, in order, without their line
/// ends. What comes behind the empty line does not matter. A blank first line
/// closes the connection.
pub proof fn law_request_is_read(
    first: Seq<char>,
    lines: Seq<Seq<char>>,
    rest: Seq<Seq<char>>,
    token: Seq<char>,
)
    requires
        forall|i: int|
            0 <= i < lines.len() ==> text::trim_line_end(#[trigger] lines[i]).len() > 0,
        rest.len() == 0 || text::trim_line_end(rest[0]).len() == 0,
    ensures
        text::trim(first).len() > 0 ==> served(new_session(), seq![first] + lines + rest, token)
            == routed(first, lines.map_values(|l: Seq<char>| text::trim_line_end(l)), token),
        text::trim(first).len() == 0 ==> served(new_session(), seq![first] + lines + rest, token)
            == StepView::Close,
        served(new_session(), Seq::empty(), token) == StepView::Close,
{
    let all = seq![first] + lines + rest;
    assert(all[0] == first);
    assert(all.drop_first() =~= lines + rest);
    let none = Seq::<Seq<char>>::empty();
    if text::trim(first).len() > 0 {
        lemma_headers_are_collected(first, none, lines, rest, token);
        assert(none + lines.map_values(|l: Seq<char>| text::trim_line_end(l)) =~= lines.map_values(
            |l: Seq<char>| text::trim_line_end(l),
        ));
    }
    assert(text::trim(Seq::<char>::empty()).len() == 0);
}

} // verus!
