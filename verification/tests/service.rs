use zapper::api::{
    api_token_matches, reason_phrase, route_request, search_response, write_json_response,
    write_text_response, ApiMatch, ApiSearchResponse, ApiSession, ApiStep,
};
use zapper::config::RemoteConfig;
use zapper::endpoint::HttpsEndpoint;
use zapper::index::{index_file, Index};
use zapper::path_map::PathMap;
use zapper::remote::{
    prepare_remote, read_reply, read_status, search_remote, search_request, RemoteError,
    ReplyError,
};

fn endpoint(host: &str, path: &str) -> HttpsEndpoint {
    HttpsEndpoint { host: host.to_string(), port: 443, path: path.to_string() }
}

/// Feeds a request line by line, as it would be read from a connection.
fn serve(request: &str, token: &str) -> ApiStep {
    let mut session = ApiSession::new();
    let mut rest = request;
    loop {
        let (line, behind) = match rest.find('\n') {
            Some(at) => rest.split_at(at + 1),
            None => (rest, ""),
        };
        rest = behind;
        match session.take_line(line, token) {
            ApiStep::ReadLine => {}
            step => return step,
        }
    }
}

fn reply(step: ApiStep) -> (u16, String) {
    match step {
        ApiStep::Reply(status, body) => (status, body.to_string()),
        _ => panic!("not a reply"),
    }
}

fn replied(status: u16, body: &str) -> (u16, String) {
    (status, body.to_string())
}

fn searched(step: ApiStep) -> (String, usize) {
    match step {
        ApiStep::Search(keyword, limit) => (keyword, limit),
        _ => panic!("not a search"),
    }
}

#[test]
fn request_is_written_in_full() {
    assert_eq!(
        search_request(&endpoint("h", "/search"), "t", "a b", 20),
        "GET /search?q=a+b&limit=20 HTTP/1.1\r\nHost: h\r\nAuthorization: Bearer t\r\n\
         X-Zap-Token: t\r\nAccept: application/json\r\nConnection: close\r\n\r\n"
    );
}

#[test]
fn request_is_served_with_the_same_keyword_and_limit() {
    for keyword in ["", "plain", "a&limit=1 \u{fc}?%\r\n#", "\u{4e2d}\u{6587}"] {
        for limit in [0usize, 1, 200, usize::MAX] {
            let request = search_request(&endpoint("h", "/search"), " tok en", keyword, limit);
            assert_eq!(searched(serve(&request, " tok en")), (keyword.to_string(), limit));
        }
    }
    let request = search_request(&endpoint("h", "/search"), "", "k", 1);
    assert_eq!(searched(serve(&request, "")), ("k".to_string(), 1));
}

#[test]
fn wrong_token_is_refused() {
    for (sent, expected) in [("a", "b"), ("", "b"), ("a", ""), ("a", "a "), ("Bearer a", "a")] {
        let request = search_request(&endpoint("h", "/search"), sent, "k", 1);
        assert_eq!(reply(serve(&request, expected)), replied(401, "unauthorized\n"));
    }
}

#[test]
fn token_that_ends_in_space_never_matches() {
    let request = search_request(&endpoint("h", "/search"), "a ", "k", 1);
    assert_eq!(reply(serve(&request, "a ")), replied(401, "unauthorized\n"));
}

#[test]
fn other_paths_are_not_found() {
    let request = search_request(&endpoint("h", "/find"), "t", "k", 1);
    assert_eq!(reply(serve(&request, "t")), replied(404, "not found\n"));
}

#[test]
fn health_is_open_to_all() {
    assert_eq!(reply(serve("GET /health HTTP/1.1\r\n\r\n", "t")), replied(200, "ok\n"));
    // With a query it is another target.
    assert_eq!(
        reply(serve("GET /health?x HTTP/1.1\r\n\r\n", "t")),
        replied(401, "unauthorized\n")
    );
}

#[test]
fn only_get_is_allowed() {
    assert_eq!(
        reply(serve("POST /health HTTP/1.1\r\n\r\n", "t")),
        replied(405, "method not allowed\n")
    );
    assert_eq!(reply(serve("get /health\n\n", "t")), replied(405, "method not allowed\n"));
}

#[test]
fn blank_first_line_closes_the_connection() {
    assert!(matches!(serve("", "t"), ApiStep::Close));
    assert!(matches!(serve(" \r\n", "t"), ApiStep::Close));
}

#[test]
fn end_of_input_ends_the_request() {
    assert_eq!(reply(serve("GET /health", "t")), replied(200, "ok\n"));
    assert_eq!(reply(serve("GET", "t")), replied(401, "unauthorized\n"));
    assert_eq!(
        searched(serve("GET /search?q=x\nx-zap-token: t", "t")),
        ("x".to_string(), 200)
    );
}

fn get(target: &str) -> ApiStep {
    route_request(&format!("GET {} HTTP/1.1\r\n", target), &["X-Zap-Token: t".to_string()], "t")
}

#[test]
fn query_keys_are_understood() {
    assert_eq!(reply(get("/search")), replied(400, "missing q\n"));
    assert_eq!(reply(get("/search?limit=3")), replied(400, "missing q\n"));
    assert_eq!(searched(get("/search?q=")), ("".to_string(), 200));
    assert_eq!(searched(get("/search?keyword=k&limit=3")), ("k".to_string(), 3));
    assert_eq!(searched(get("/search?q=a&keyword=b&q=c")), ("c".to_string(), 200));
    assert_eq!(searched(get("/search?limit=3&q=a&limit=x&limit=-1")), ("a".to_string(), 3));
    assert_eq!(searched(get("/search?%71=a?b")), ("a?b".to_string(), 200));
}

fn token_matches(lines: &[&str], token: &str) -> bool {
    let headers: Vec<String> = lines.iter().map(|l| l.to_string()).collect();
    api_token_matches(&headers, token)
}

#[test]
fn token_is_found_in_either_header() {
    assert!(token_matches(&["Host: h", "AUTHORIZATION:Bearer t"], "t"));
    assert!(token_matches(&[" x-zap-TOKEN :  t  "], "t"));
    assert!(token_matches(&["X-Zap-Token: a:b"], "a:b"));
    assert!(!token_matches(&["Authorization: bearer t"], "t"));
    assert!(!token_matches(&["Authorization: t"], "t"));
    assert!(!token_matches(&["X-Zap-Token: Bearer t"], "t"));
    assert!(!token_matches(&["X-Zap-Token t"], "t"));
    assert!(!token_matches(&[], "t"));
}

#[test]
fn reasons_go_with_their_status() {
    let reasons: Vec<&str> =
        [200, 400, 401, 404, 405, 500].iter().map(|s| reason_phrase(*s)).collect();
    assert_eq!(
        reasons,
        vec!["OK", "Bad Request", "Unauthorized", "Not Found", "Method Not Allowed", "Error"]
    );
}

#[test]
fn text_answer_is_written_in_full() {
    let mut out = b"before".to_vec();
    write_text_response(&mut out, 404, "n\u{f6}\n");
    let expected = "beforeHTTP/1.1 404 Not Found\r\nContent-Type: text/plain; charset=utf-8\r\n\
                    Content-Length: 4\r\nConnection: close\r\n\r\nn\u{f6}\n";
    assert_eq!(out, expected.as_bytes());
}

#[test]
fn json_answer_is_written_in_full() {
    let mut out = Vec::new();
    write_json_response(&mut out, 200, b"{}");
    let expected = "HTTP/1.1 200 OK\r\nContent-Type: application/json\r\nContent-Length: 2\r\n\
                    Connection: close\r\n\r\n{}";
    assert_eq!(out, expected.as_bytes());
}

#[test]
fn answers_are_read_back() {
    let mut out = Vec::new();
    write_json_response(&mut out, 200, b"{\"a\":\"\r\n\r\n\"}");
    assert_eq!(read_reply(&out), Ok(b"{\"a\":\"\r\n\r\n\"}".to_vec()));
    let mut out = Vec::new();
    write_text_response(&mut out, 401, "unauthorized\n");
    assert_eq!(read_reply(&out), Err(ReplyError::Failed(401)));
}

#[test]
fn replies_of_no_use_are_refused() {
    assert_eq!(read_reply(b"HTTP/1.1 200 OK\r\n"), Err(ReplyError::NoHead));
    assert_eq!(read_reply(b"HTTP/1.1\r\n\r\n"), Err(ReplyError::NoStatus));
    assert_eq!(read_reply(b"\r\n\r\nbody"), Err(ReplyError::NoStatus));
    assert_eq!(read_reply(b"HTTP/1.1 99999 X\r\n\r\n"), Err(ReplyError::NoStatus));
    assert_eq!(read_reply(b"HTTP/1.1 \xff200 OK\r\n\r\n"), Err(ReplyError::NoStatus));
    assert_eq!(read_reply(b"\xff 200\r\n\r\nbody"), Ok(b"body".to_vec()));
    assert_eq!(ReplyError::NoHead.message(), "invalid HTTP response");
    assert_eq!(ReplyError::NoStatus.message(), "invalid HTTP status");
    assert_eq!(ReplyError::Failed(503).message(), "remote API returned HTTP 503");
}

#[test]
fn status_is_the_second_word() {
    assert_eq!(read_status("HTTP/1.1  204\tNo Content\nX: y"), Some(204));
    assert_eq!(read_status("\nHTTP/1.1 200"), None);
    assert_eq!(read_status(""), None);
}

fn remote(endpoint: &str, host: Option<&str>, ca_cert: Option<&[u8]>) -> RemoteConfig {
    RemoteConfig {
        endpoint: endpoint.to_string(),
        token: "t".to_string(),
        host: host.map(|h| h.to_string()),
        ca_cert: ca_cert.map(|c| c.to_vec()),
    }
}

#[test]
fn remote_search_is_prepared() {
    let query = prepare_remote(&remote("https://h:1", None, Some(b"/ca.pem")), "k", 5).ok().unwrap();
    assert_eq!(query.ca_cert, b"/ca.pem".to_vec());
    assert_eq!(query.endpoint.address(), "h:1");
    assert_eq!(query.request, search_request(&query.endpoint, "t", "k", 5));
}

#[test]
fn remote_search_needs_address_and_certificate() {
    assert!(matches!(
        prepare_remote(&remote("ftp://h", None, None), "k", 5),
        Err(RemoteError::Endpoint(_))
    ));
    let missing = prepare_remote(&remote("https://h", None, None), "k", 5).err().unwrap();
    assert!(matches!(missing, RemoteError::NoCaCert));
    assert_eq!(
        missing.message("https://h"),
        "remote CA certificate is required for HTTPS; use --remote-ca-cert or config \
         remotes[].ca_cert"
    );
    let wrong = prepare_remote(&remote("x", None, None), "k", 5).err().unwrap();
    assert_eq!(wrong.message("x"), "only https:// zapper endpoints are supported: x");
}

fn answer(host: &str) -> ApiSearchResponse {
    ApiSearchResponse {
        host: host.to_string(),
        matches: vec![ApiMatch {
            path: "/n/a.md".to_string(),
            line_number: 3,
            column: 4,
            line: "text".to_string(),
        }],
    }
}

#[test]
fn remote_results_carry_the_name_of_the_host() {
    let at = endpoint("addr", "/search");
    let path = |configured: Option<&str>, given: &str| {
        let results = search_remote(&remote("https://addr", configured, None), &at, answer(given));
        assert_eq!(results.len(), 1);
        assert_eq!((results[0].line_number, results[0].column), (3, 4));
        assert_eq!(results[0].line, "text");
        results[0].path.clone()
    };
    assert_eq!(path(Some("desk"), "given"), "desk:/n/a.md");
    assert_eq!(path(Some(""), "given"), "given:/n/a.md");
    assert_eq!(path(None, "given"), "given:/n/a.md");
    assert_eq!(path(None, ""), "addr:/n/a.md");
}

#[test]
fn service_answers_with_the_matches_of_its_index() {
    let mut files = PathMap::new();
    files.insert(b"/n/\xff.md".to_vec(), index_file("one\ntwo two", 0, 0));
    let index = Index { version: 1, root: b"/n".to_vec(), generated_at: 0, files };
    let response = search_response(&index, "desk", "TWO", 1);
    assert_eq!(response.host, "desk");
    assert_eq!(response.matches.len(), 1);
    assert_eq!(response.matches[0].path, "/n/\u{fffd}.md");
    assert_eq!((response.matches[0].line_number, response.matches[0].column), (2, 1));
}
