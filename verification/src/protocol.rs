//! What holds between the two ends of a connection: requests of a remote search
//! and the service that reads them, answers of the service and the search that
//! reads them.
use crate::api;
use crate::api::StepView;
use crate::encoding;
use crate::endpoint::EndpointView;
use crate::number;
use crate::remote;
use crate::remote::ReplyError;
use crate::search;
use crate::text;
use crate::text_laws;
use crate::url;
use vstd::prelude::*;
use vstd::utf8;

verus! {

/// Whether a text has neither a carriage return nor a line feed.
pub open spec fn is_one_line(s: Seq<char>) -> bool {
    !s.contains('\r') && !s.contains('\n')
}

pub open spec fn has_no_space(s: Seq<char>) -> bool {
    forall|i: int| 0 <= i < s.len() ==> !text::is_space(#[trigger] s[i])
}

/// Whether white space stands at neither end of a text.
pub open spec fn is_trimmed(s: Seq<char>) -> bool {
    s.len() > 0 ==> !text::is_space(s[0]) && !text::is_space(s.last())
}

proof fn lemma_word_length(word: Seq<char>, rest: Seq<char>)
    requires
        has_no_space(word),
    ensures
        text::word_length(word + seq![' '] + rest) == word.len(),
    decreases word.len(),
{
    let s = word + seq![' '] + rest;
    if word.len() > 0 {
        assert(!text::is_space(word[0]));
        assert(s.drop_first() =~= word.drop_first() + seq![' '] + rest);
        assert forall|i: int| 0 <= i < word.drop_first().len() implies !text::is_space(
            #[trigger] word.drop_first()[i],
        ) by {
            assert(!text::is_space(word[i + 1]));
        }
        lemma_word_length(word.drop_first(), rest);
    }
}

proof fn lemma_first_word(word: Seq<char>, rest: Seq<char>)
    requires
        word.len() > 0,
        has_no_space(word),
    ensures
        text::words(word + seq![' '] + rest) == seq![word] + text::words(rest),
{
    let s = word + seq![' '] + rest;
    lemma_word_length(word, rest);
    assert(!text::is_space(word[0]));
    assert(s.take(word.len() as int) =~= word);
    let tail = s.skip(word.len() as int);
    assert(tail =~= seq![' '] + rest);
    assert(tail.drop_first() =~= rest);
    assert(text::is_space(tail[0]));
    assert(text::words(tail) == text::words(rest));
    assert(s[0] == word[0]);
}

proof fn lemma_trim_space_before(s: Seq<char>)
    requires
        is_trimmed(s),
    ensures
        text::trim(seq![' '] + s) == s,
{
    let padded = seq![' '] + s;
    assert(padded.drop_first() =~= s);
    assert(text::trim_start(padded) == text::trim_start(s));
}

proof fn lemma_trim_end_keeps(s: Seq<char>)
    requires
        s.len() > 0,
        !text::is_space(s[0]),
    ensures
        text::trim_end(s).len() > 0,
    decreases s.len(),
{
    if text::is_space(s.last()) {
        assert(s.len() > 1);
        lemma_trim_end_keeps(s.drop_last());
    }
}

/// The line `s` as it is sent.
pub open spec fn sent_line(s: Seq<char>) -> Seq<char> {
    s + seq!['\r', '\n']
}

proof fn lemma_sent_line(s: Seq<char>)
    requires
        is_one_line(s),
    ensures
        text::trim_line_end(sent_line(s)) == s,
{
    let line = sent_line(s);
    assert(line.drop_last() =~= s.push('\r'));
    assert(line.drop_last().drop_last() =~= s);
    if s.len() > 0 {
        assert(s.contains(s.last()));
    }
    reveal_with_fuel(text::trim_line_end, 3);
}

proof fn lemma_read_line(s: Seq<char>, rest: Seq<char>)
    requires
        is_one_line(s),
    ensures
        api::read_lines(sent_line(s) + rest) == seq![sent_line(s)] + api::read_lines(rest),
{
    let input = sent_line(s) + rest;
    let at = s.len() as int + 1;
    assert forall|i: int| 0 <= i < at implies input[i] != '\n' by {
        if i < s.len() {
            assert(s.contains(s[i]));
        }
    }
    text::lemma_first_index_is(input, '\n', at);
    assert(input.take(at + 1) =~= sent_line(s));
    assert(input.skip(at + 1) =~= rest);
}

proof fn lemma_split_first(part: Seq<char>, x: char, rest: Seq<char>)
    requires
        !part.contains(x),
    ensures
        text::split(part + seq![x] + rest, x) == seq![part] + text::split(rest, x),
{
    let s = part + seq![x] + rest;
    text::lemma_split_once_is(part, x, rest);
    text::lemma_first_index(s, x);
}

proof fn lemma_split_whole(s: Seq<char>, x: char)
    requires
        !s.contains(x),
    ensures
        text::split(s, x) == seq![s],
{
    text::lemma_split_once_none(s, x);
}

proof fn lemma_plain_bytes(bytes: Seq<u8>)
    requires
        forall|i: int| 0 <= i < bytes.len() ==> url::is_unreserved(#[trigger] bytes[i]),
    ensures
        url::escaped(bytes) == bytes,
    decreases bytes.len(),
{
    if bytes.len() > 0 {
        let rest = bytes.drop_first();
        assert forall|i: int| 0 <= i < rest.len() implies url::is_unreserved(#[trigger] rest[i]) by {
            assert(url::is_unreserved(bytes[i + 1]));
        }
        lemma_plain_bytes(rest);
        assert(url::is_unreserved(bytes[0]));
        assert(seq![bytes[0]] + rest =~= bytes);
    }
    assert(url::escaped(bytes) =~= bytes);
}

proof fn lemma_plain_text_decodes(s: Seq<char>)
    requires
        utf8::is_ascii_chars(s),
        forall|i: int| 0 <= i < s.len() ==> url::is_unreserved(#[trigger] s[i] as u8),
    ensures
        url::percent_decoded(s) == s,
{
    utf8::is_ascii_chars_encode_utf8(s);
    let bytes = utf8::encode_utf8(s);
    assert forall|i: int| 0 <= i < bytes.len() implies url::is_unreserved(#[trigger] bytes[i]) by {
        assert('\0' <= s[i] <= '\u{7f}');
        assert(bytes[i] == s[i] as u8);
    }
    lemma_plain_bytes(bytes);
    url::law_percent_read_back(s);
    assert(url::percent_encoded(s) =~= s) by {
        assert forall|i: int| 0 <= i < s.len() implies encoding::ascii_text(bytes)[i] == s[i] by {
            assert('\0' <= s[i] <= '\u{7f}');
            assert(bytes[i] == s[i] as u8);
        }
    }
}

proof fn lemma_digits_decode(n: nat)
    ensures
        url::percent_decoded(number::decimal(n)) == number::decimal(n),
{
    number::law_decimal_read_back(n, n as int);
    let digits = number::decimal(n);
    assert forall|i: int| 0 <= i < digits.len() implies '\0' <= #[trigger] digits[i] <= '\u{7f}'
        && url::is_unreserved(digits[i] as u8) by {
        assert(number::is_digit(digits[i]));
    }
    lemma_plain_text_decodes(digits);
}

/// The query of a search means the keyword and the limit that it was made of.
pub proof fn law_query_read_back(keyword: Seq<char>, limit: nat)
    requires
        limit <= usize::MAX,
    ensures
        ({
            let target = remote::search_target("/search"@, keyword, limit);
            let (path, query) = api::path_and_query(target);
            let meaning = api::query_meaning(url::query_pairs(query));
            &&& path == "/search"@
            &&& meaning.keyword == Some(keyword)
            &&& meaning.limit == limit
        }),
{
    reveal_strlit("/search");
    reveal_strlit("?q=");
    reveal_strlit("&limit=");
    reveal_strlit("q");
    reveal_strlit("limit");
    reveal_strlit("keyword");
    let encoded = url::percent_encoded(keyword);
    let digits = number::decimal(limit);
    url::law_encoded_is_url_safe(keyword);
    number::law_decimal_read_back(limit, usize::MAX as int);
    let q_part = "q"@ + seq!['='] + encoded;
    let limit_part = "limit"@ + seq!['='] + digits;
    let query = q_part + seq!['&'] + limit_part;
    assert(remote::search_target("/search"@, keyword, limit) =~= "/search"@ + seq!['?'] + query);
    text::lemma_split_once_is("/search"@, '?', query);
    assert forall|i: int| 0 <= i < q_part.len() implies q_part[i] != '&' by {
        if i >= 2 {
            assert(url::is_url_safe(encoded[i - 2]));
        }
    }
    assert forall|i: int| 0 <= i < limit_part.len() implies limit_part[i] != '&' by {
        if i >= 6 {
            assert(number::is_digit(digits[i - 6]));
        }
    }
    lemma_split_first(q_part, '&', limit_part);
    lemma_split_whole(limit_part, '&');
    let parts = text::split(query, '&');
    assert(parts =~= seq![q_part, limit_part]);
    text::lemma_split_once_is("q"@, '=', encoded);
    text::lemma_split_once_is("limit"@, '=', digits);
    lemma_plain_text_decodes("q"@);
    lemma_plain_text_decodes("limit"@);
    url::law_percent_read_back(keyword);
    lemma_digits_decode(limit);
    assert(parts.drop_last() =~= seq![q_part]);
    assert(parts.drop_last().drop_last() =~= Seq::<Seq<char>>::empty());
    reveal_with_fuel(url::query_pairs_of, 3);
    let pairs = url::query_pairs(query);
    assert(pairs =~= seq![("q"@, keyword), ("limit"@, digits)]);
    assert(pairs.drop_last() =~= seq![("q"@, keyword)]);
    assert(pairs.drop_last().drop_last() =~= Seq::<(Seq<char>, Seq<char>)>::empty());
    assert("limit"@.len() == 5 && "q"@.len() == 1 && "keyword"@.len() == 7);
    reveal_with_fuel(api::query_meaning, 3);
}

/// The header lines that a remote search sends.
pub open spec fn sent_headers(host: Seq<char>, token: Seq<char>) -> Seq<Seq<char>> {
    seq![
        "Host: "@ + host,
        "Authorization: Bearer "@ + token,
        "X-Zap-Token: "@ + token,
        "Accept: application/json"@,
        "Connection: close"@,
    ]
}

/// The first line that a remote search sends.
pub open spec fn sent_request_line(path: Seq<char>, keyword: Seq<char>, limit: nat) -> Seq<char> {
    "GET "@ + remote::search_target(path, keyword, limit) + " HTTP/1.1"@
}

proof fn lemma_sent_lines_are_lines(
    endpoint: EndpointView,
    token: Seq<char>,
    keyword: Seq<char>,
    limit: nat,
)
    requires
        is_one_line(endpoint.path),
        is_one_line(endpoint.host),
        is_one_line(token),
    ensures
        is_one_line(sent_request_line(endpoint.path, keyword, limit)),
        forall|i: int|
            0 <= i < 5 ==> is_one_line(#[trigger] sent_headers(endpoint.host, token)[i]),
{
    reveal_strlit("?q=");
    reveal_strlit("&limit=");
    reveal_strlit("GET ");
    reveal_strlit(" HTTP/1.1");
    reveal_strlit("Host: ");
    reveal_strlit("Authorization: Bearer ");
    reveal_strlit("X-Zap-Token: ");
    reveal_strlit("Accept: application/json");
    reveal_strlit("Connection: close");
    let encoded = url::percent_encoded(keyword);
    let digits = number::decimal(limit);
    url::law_encoded_is_url_safe(keyword);
    number::law_decimal_read_back(limit, limit as int);
    lemma_one_line_concat(endpoint.path, "?q="@);
    assert(is_one_line(encoded)) by {
        assert forall|i: int| 0 <= i < encoded.len() implies encoded[i] != '\r' && encoded[i]
            != '\n' by {
            assert(url::is_url_safe(encoded[i]));
        }
    }
    assert(is_one_line(digits)) by {
        assert forall|i: int| 0 <= i < digits.len() implies digits[i] != '\r' && digits[i]
            != '\n' by {
            assert(number::is_digit(digits[i]));
        }
    }
    lemma_one_line_concat(endpoint.path + "?q="@, encoded);
    lemma_one_line_concat(endpoint.path + "?q="@ + encoded, "&limit="@);
    lemma_one_line_concat(endpoint.path + "?q="@ + encoded + "&limit="@, digits);
    let target = remote::search_target(endpoint.path, keyword, limit);
    lemma_one_line_concat("GET "@, target);
    lemma_one_line_concat("GET "@ + target, " HTTP/1.1"@);
    lemma_one_line_concat("Host: "@, endpoint.host);
    lemma_one_line_concat("Authorization: Bearer "@, token);
    lemma_one_line_concat("X-Zap-Token: "@, token);
}

proof fn lemma_one_line_concat(a: Seq<char>, b: Seq<char>)
    requires
        is_one_line(a),
        is_one_line(b),
    ensures
        is_one_line(a + b),
{
    assert forall|i: int| 0 <= i < (a + b).len() implies (a + b)[i] != '\r' && (a + b)[i]
        != '\n' by {
        if i < a.len() {
            assert(a.contains(a[i]));
        } else {
            assert(b.contains(b[i - a.len()]));
        }
    }
}

proof fn lemma_request_lines(
    endpoint: EndpointView,
    token: Seq<char>,
    keyword: Seq<char>,
    limit: nat,
)
    requires
        is_one_line(endpoint.path),
        is_one_line(endpoint.host),
        is_one_line(token),
    ensures
        ({
            let headers = sent_headers(endpoint.host, token);
            api::read_lines(remote::request_text(endpoint, token, keyword, limit)) == seq![
                sent_line(sent_request_line(endpoint.path, keyword, limit)),
                sent_line(headers[0]),
                sent_line(headers[1]),
                sent_line(headers[2]),
                sent_line(headers[3]),
                sent_line(headers[4]),
                sent_line(Seq::empty()),
            ]
        }),
{
    lemma_sent_lines_are_lines(endpoint, token, keyword, limit);
    let first = sent_request_line(endpoint.path, keyword, limit);
    let h = sent_headers(endpoint.host, token);
    assert(is_one_line(h[0]) && is_one_line(h[1]) && is_one_line(h[2]) && is_one_line(h[3])
        && is_one_line(h[4]));
    let none = Seq::<char>::empty();
    let r6 = sent_line(none) + none;
    let r5 = sent_line(h[4]) + r6;
    let r4 = sent_line(h[3]) + r5;
    let r3 = sent_line(h[2]) + r4;
    let r2 = sent_line(h[1]) + r3;
    let r1 = sent_line(h[0]) + r2;
    let r0 = sent_line(first) + r1;
    assert(remote::request_text(endpoint, token, keyword, limit) =~= r0) by {
        reveal_strlit(" HTTP/1.1\r\nHost: ");
        reveal_strlit(" HTTP/1.1");
        reveal_strlit("Host: ");
        reveal_strlit("\r\nAuthorization: Bearer ");
        reveal_strlit("Authorization: Bearer ");
        reveal_strlit("\r\nX-Zap-Token: ");
        reveal_strlit("X-Zap-Token: ");
        reveal_strlit("\r\nAccept: application/json\r\nConnection: close\r\n\r\n");
        reveal_strlit("Accept: application/json");
        reveal_strlit("Connection: close");
        let crlf = seq!['\r', '\n'];
        assert(" HTTP/1.1\r\nHost: "@ =~= " HTTP/1.1"@ + crlf + "Host: "@);
        assert("\r\nAuthorization: Bearer "@ =~= crlf + "Authorization: Bearer "@);
        assert("\r\nX-Zap-Token: "@ =~= crlf + "X-Zap-Token: "@);
        assert("\r\nAccept: application/json\r\nConnection: close\r\n\r\n"@ =~= crlf
            + "Accept: application/json"@ + crlf + "Connection: close"@ + crlf + crlf);
    }
    lemma_read_line(first, r1);
    lemma_read_line(h[0], r2);
    lemma_read_line(h[1], r3);
    lemma_read_line(h[2], r4);
    lemma_read_line(h[3], r5);
    lemma_read_line(h[4], r6);
    lemma_read_line(none, none);
    let s6 = api::read_lines(r6);
    assert(s6 =~= seq![sent_line(none)]);
    assert(api::read_lines(r0) =~= seq![
        sent_line(first),
        sent_line(h[0]),
        sent_line(h[1]),
        sent_line(h[2]),
        sent_line(h[3]),
        sent_line(h[4]),
        sent_line(none),
    ]);
}

proof fn lemma_request_words(keyword: Seq<char>, limit: nat)
    ensures
        ({
            let line = sent_line(sent_request_line("/search"@, keyword, limit));
            let target = remote::search_target("/search"@, keyword, limit);
            &&& api::word_at(line, 0) == "GET"@
            &&& api::word_at(line, 1) == target
            &&& target != "/health"@
            &&& text::trim(line).len() > 0
        }),
{
    reveal_strlit("GET");
    reveal_strlit("GET ");
    reveal_strlit(" HTTP/1.1");
    reveal_strlit("HTTP/1.1");
    reveal_strlit("/search");
    reveal_strlit("/health");
    reveal_strlit("?q=");
    reveal_strlit("&limit=");
    let target = remote::search_target("/search"@, keyword, limit);
    let line = sent_line(sent_request_line("/search"@, keyword, limit));
    let end = sent_line("HTTP/1.1"@);
    assert(line =~= "GET"@ + seq![' '] + (target + seq![' '] + end));
    let encoded = url::percent_encoded(keyword);
    let digits = number::decimal(limit);
    url::law_encoded_is_url_safe(keyword);
    number::law_decimal_read_back(limit, limit as int);
    assert forall|i: int| 0 <= i < target.len() implies !text::is_space(#[trigger] target[i]) by {
        let n = encoded.len();
        if 10 <= i < 10 + n {
            assert(target[i] == encoded[i - 10]);
            assert(url::is_url_safe(encoded[i - 10]));
        } else if i >= 17 + n {
            assert(target[i] == digits[i - 17 - n]);
            assert(number::is_digit(digits[i - 17 - n]));
        } else if i >= 10 + n {
            assert(target[i] == "&limit="@[i - 10 - n]);
        }
    }
    lemma_first_word("GET"@, target + seq![' '] + end);
    lemma_first_word(target, end);
    assert(target[1] == 's' && "/health"@[1] == 'h');
    assert(!text::is_space(line[0]));
    assert(text::trim_start(line) == line);
    lemma_trim_end_keeps(line);
}

proof fn lemma_headers_are_kept(s: Seq<char>)
    requires
        is_one_line(s),
        s.len() > 0,
    ensures
        text::trim_line_end(sent_line(s)).len() > 0,
        text::trim_line_end(sent_line(s)) == s,
{
    lemma_sent_line(s);
}

proof fn lemma_request_is_routed(
    endpoint: EndpointView,
    token: Seq<char>,
    keyword: Seq<char>,
    limit: nat,
    expected: Seq<char>,
)
    requires
        endpoint.path == "/search"@,
        is_one_line(endpoint.host),
        is_one_line(token),
    ensures
        api::served(
            api::new_session(),
            api::read_lines(remote::request_text(endpoint, token, keyword, limit)),
            expected,
        ) == api::routed(
            sent_line(sent_request_line(endpoint.path, keyword, limit)),
            sent_headers(endpoint.host, token),
            expected,
        ),
{
    reveal_strlit("/search");
    lemma_request_lines(endpoint, token, keyword, limit);
    lemma_sent_lines_are_lines(endpoint, token, keyword, limit);
    lemma_request_words(keyword, limit);
    let lines = api::read_lines(remote::request_text(endpoint, token, keyword, limit));
    let h = sent_headers(endpoint.host, token);
    reveal_strlit("Host: ");
    reveal_strlit("Authorization: Bearer ");
    reveal_strlit("X-Zap-Token: ");
    reveal_strlit("Accept: application/json");
    reveal_strlit("Connection: close");
    assert(is_one_line(h[0]) && is_one_line(h[1]) && is_one_line(h[2]) && is_one_line(h[3])
        && is_one_line(h[4]));
    lemma_headers_are_kept(h[0]);
    lemma_headers_are_kept(h[1]);
    lemma_headers_are_kept(h[2]);
    lemma_headers_are_kept(h[3]);
    lemma_headers_are_kept(h[4]);
    lemma_sent_line(Seq::empty());
    let s0 = api::new_session();
    let s1 = api::session_after(s0, lines[0]);
    let s2 = api::session_after(s1, lines[1]);
    let s3 = api::session_after(s2, lines[2]);
    let s4 = api::session_after(s3, lines[3]);
    let s5 = api::session_after(s4, lines[4]);
    let s6 = api::session_after(s5, lines[5]);
    assert(s6.headers =~= h);
    let l1 = lines.drop_first();
    let l2 = l1.drop_first();
    let l3 = l2.drop_first();
    let l4 = l3.drop_first();
    let l5 = l4.drop_first();
    let l6 = l5.drop_first();
    assert(l1[0] == lines[1] && l2[0] == lines[2] && l3[0] == lines[3] && l4[0] == lines[4]
        && l5[0] == lines[5] && l6[0] == lines[6]);
    assert(api::served(s0, lines, expected) == api::served(s1, l1, expected));
    assert(api::served(s1, l1, expected) == api::served(s2, l2, expected));
    assert(api::served(s2, l2, expected) == api::served(s3, l3, expected));
    assert(api::served(s3, l3, expected) == api::served(s4, l4, expected));
    assert(api::served(s4, l4, expected) == api::served(s5, l5, expected));
    assert(api::served(s5, l5, expected) == api::served(s6, l6, expected));
}

/// The parts of the header lines that a remote search sends.
proof fn lemma_header_parts(host: Seq<char>, token: Seq<char>)
    ensures
        ({
            let h = sent_headers(host, token);
            &&& text::split_once(h[0], ':') == Some(("Host"@, " "@ + host))
            &&& text::split_once(h[1], ':') == Some(("Authorization"@, " Bearer "@ + token))
            &&& text::split_once(h[2], ':') == Some(("X-Zap-Token"@, " "@ + token))
            &&& text::split_once(h[3], ':') == Some(("Accept"@, " application/json"@))
            &&& text::split_once(h[4], ':') == Some(("Connection"@, " close"@))
            &&& text::trim("Host"@) == "Host"@
            &&& text::trim("Authorization"@) == "Authorization"@
            &&& text::trim("X-Zap-Token"@) == "X-Zap-Token"@
            &&& text::trim("Accept"@) == "Accept"@
            &&& text::trim("Connection"@) == "Connection"@
        }),
{
    reveal_strlit("Host: ");
    reveal_strlit("Host");
    reveal_strlit(" ");
    reveal_strlit("Authorization: Bearer ");
    reveal_strlit("Authorization");
    reveal_strlit(" Bearer ");
    reveal_strlit("X-Zap-Token: ");
    reveal_strlit("X-Zap-Token");
    reveal_strlit("Accept: application/json");
    reveal_strlit("Accept");
    reveal_strlit(" application/json");
    reveal_strlit("Connection: close");
    reveal_strlit("Connection");
    reveal_strlit(" close");
    let h = sent_headers(host, token);
    assert(h[0] =~= "Host"@ + seq![':'] + (" "@ + host));
    assert(h[1] =~= "Authorization"@ + seq![':'] + (" Bearer "@ + token));
    assert(h[2] =~= "X-Zap-Token"@ + seq![':'] + (" "@ + token));
    assert(h[3] =~= "Accept"@ + seq![':'] + " application/json"@);
    assert(h[4] =~= "Connection"@ + seq![':'] + " close"@);
    text::lemma_split_once_is("Host"@, ':', " "@ + host);
    text::lemma_split_once_is("Authorization"@, ':', " Bearer "@ + token);
    text::lemma_split_once_is("X-Zap-Token"@, ':', " "@ + token);
    text::lemma_split_once_is("Accept"@, ':', " application/json"@);
    text::lemma_split_once_is("Connection"@, ':', " close"@);
}

/// The request that a remote search writes is answered by a service with the
/// same token with a search for the same keyword and the same limit. The address
/// has the path of the search, neither the host nor the token has a line end in
/// it, and the token does not end in white space.
pub proof fn law_request_is_served(
    endpoint: EndpointView,
    token: Seq<char>,
    keyword: Seq<char>,
    limit: nat,
)
    requires
        endpoint.path == "/search"@,
        is_one_line(endpoint.host),
        is_one_line(token),
        token.len() > 0 ==> !text::is_space(token.last()),
        limit <= usize::MAX,
    ensures
        api::served(
            api::new_session(),
            api::read_lines(remote::request_text(endpoint, token, keyword, limit)),
            token,
        ) == StepView::Search(keyword, limit as int),
{
    lemma_request_is_routed(endpoint, token, keyword, limit, token);
    lemma_request_words(keyword, limit);
    law_query_read_back(keyword, limit);
    lemma_header_parts(endpoint.host, token);
    let h = sent_headers(endpoint.host, token);
    reveal_strlit("Authorization");
    reveal_strlit("authorization");
    reveal_strlit("X-Zap-Token");
    reveal_strlit("x-zap-token");
    reveal_strlit("Bearer ");
    reveal_strlit(" Bearer ");
    reveal_strlit(" ");
    if token.len() > 0 {
        let value = "Bearer "@ + token;
        assert(" Bearer "@ + token =~= seq![' '] + value);
        assert(value.last() == token.last());
        lemma_trim_space_before(value);
        assert(text::same_ignoring_case("Authorization"@, "authorization"@));
        assert(api::carries_token(h[1], token));
    } else {
        assert(" "@ + token =~= seq![' '] + token);
        lemma_trim_space_before(token);
        assert(text::same_ignoring_case("X-Zap-Token"@, "x-zap-token"@));
        assert(api::carries_token(h[2], token));
    }
}

/// The request that a remote search writes is refused by a service with another
/// token. The address has the path of the search, neither the host nor the sent
/// token has a line end in it, and no white space stands at the ends of the sent
/// token.
pub proof fn law_wrong_token_is_refused(
    endpoint: EndpointView,
    token: Seq<char>,
    expected: Seq<char>,
    keyword: Seq<char>,
    limit: nat,
)
    requires
        endpoint.path == "/search"@,
        is_one_line(endpoint.host),
        is_one_line(token),
        is_trimmed(token),
        token != expected,
    ensures
        api::served(
            api::new_session(),
            api::read_lines(remote::request_text(endpoint, token, keyword, limit)),
            expected,
        ) == StepView::Reply(401, "unauthorized\n"@),
{
    lemma_request_is_routed(endpoint, token, keyword, limit, expected);
    lemma_request_words(keyword, limit);
    lemma_header_parts(endpoint.host, token);
    let h = sent_headers(endpoint.host, token);
    reveal_strlit("Host");
    reveal_strlit("Accept");
    reveal_strlit("Connection");
    reveal_strlit("Authorization");
    reveal_strlit("authorization");
    reveal_strlit("X-Zap-Token");
    reveal_strlit("x-zap-token");
    reveal_strlit("Bearer ");
    reveal_strlit(" Bearer ");
    reveal_strlit(" ");
    assert(!api::carries_token(h[0], expected));
    assert(!api::carries_token(h[1], expected)) by {
        let wanted = "Bearer "@ + expected;
        if token.len() > 0 {
            let value = "Bearer "@ + token;
            assert(" Bearer "@ + token =~= seq![' '] + value);
            assert(value.last() == token.last());
            lemma_trim_space_before(value);
            if value == wanted {
                assert(token =~= value.skip(7));
                assert(expected =~= wanted.skip(7));
            }
        } else {
            let sent = " Bearer "@ + token;
            let short = sent.drop_first();
            assert(!text::is_space(short[0]));
            assert(text::is_space(sent[0]));
            assert(text::trim_start(short) == short);
            assert(short.last() == ' ');
            assert(text::is_space(short.last()));
            lemma_trim_end_shrinks(short.drop_last());
            assert(text::trim(sent).len() <= 6);
            assert(wanted.len() >= 7);
        }
    }
    assert(!api::carries_token(h[2], expected)) by {
        assert(" "@ + token =~= seq![' '] + token);
        lemma_trim_space_before(token);
    }
    assert(!api::carries_token(h[3], expected));
    assert(!api::carries_token(h[4], expected));
    assert forall|i: int| 0 <= i < h.len() implies !#[trigger] api::carries_token(
        h[i],
        expected,
    ) by {
        assert(i == 0 || i == 1 || i == 2 || i == 3 || i == 4);
    }
}

proof fn lemma_trim_end_shrinks(s: Seq<char>)
    ensures
        text::trim_end(s).len() <= s.len(),
    decreases s.len(),
{
    if s.len() > 0 && text::is_space(s.last()) {
        lemma_trim_end_shrinks(s.drop_last());
    }
}

proof fn lemma_search_shows_token(
    session: api::SessionView,
    lines: Seq<Seq<char>>,
    token: Seq<char>,
)
    requires
        api::served(session, lines, token) is Search,
    ensures
        api::is_authorized(session.headers, token) || exists|i: int|
            0 <= i < lines.len() && #[trigger] api::carries_token(
                text::trim_line_end(lines[i]),
                token,
            ),
    decreases lines.len(),
{
    if lines.len() > 0 && api::step_after(session, lines[0], token) is ReadLine {
        let next = api::session_after(session, lines[0]);
        let rest = lines.drop_first();
        lemma_search_shows_token(next, rest, token);
        if api::is_authorized(next.headers, token) {
            let i = choose|i: int|
                0 <= i < next.headers.len() && #[trigger] api::carries_token(
                    next.headers[i],
                    token,
                );
            if i < session.headers.len() {
                assert(api::carries_token(session.headers[i], token));
            } else {
                assert(api::carries_token(text::trim_line_end(lines[0]), token));
            }
        } else {
            let i = choose|i: int|
                0 <= i < rest.len() && #[trigger] api::carries_token(
                    text::trim_line_end(rest[i]),
                    token,
                );
            assert(rest[i] == lines[i + 1]);
            assert(api::carries_token(text::trim_line_end(lines[i + 1]), token));
        }
    }
}

/// The service searches only for those who show the token: one of the lines that
/// it read carries it.
pub proof fn law_search_needs_token(lines: Seq<Seq<char>>, token: Seq<char>)
    requires
        api::served(api::new_session(), lines, token) is Search,
    ensures
        exists|i: int|
            0 <= i < lines.len() && #[trigger] api::carries_token(
                text::trim_line_end(lines[i]),
                token,
            ),
{
    lemma_search_shows_token(api::new_session(), lines, token);
}

/// The health check is answered whatever the headers say.
pub proof fn law_health_is_open(
    request_line: Seq<char>,
    headers: Seq<Seq<char>>,
    token: Seq<char>,
)
    requires
        api::word_at(request_line, 0) == "GET"@,
        api::word_at(request_line, 1) == "/health"@,
    ensures
        api::routed(request_line, headers, token) == StepView::Reply(200, "ok\n"@),
{
}

proof fn lemma_ascii_concat(a: Seq<char>, b: Seq<char>)
    requires
        utf8::is_ascii_chars(a),
        utf8::is_ascii_chars(b),
    ensures
        utf8::is_ascii_chars(a + b),
{
    assert forall|i: int| 0 <= i < (a + b).len() implies '\0' <= #[trigger] (a + b)[i]
        <= '\u{7f}' by {
        if i < a.len() {
            assert('\0' <= a[i] <= '\u{7f}');
        } else {
            assert('\0' <= b[i - a.len()] <= '\u{7f}');
        }
    }
}

proof fn lemma_decimal_is_plain(n: nat)
    ensures
        utf8::is_ascii_chars(number::decimal(n)),
        is_one_line(number::decimal(n)),
        has_no_space(number::decimal(n)),
        number::decimal(n).len() > 0,
{
    number::law_decimal_read_back(n, n as int);
    let digits = number::decimal(n);
    assert forall|i: int| 0 <= i < digits.len() implies '\0' <= #[trigger] digits[i] <= '\u{7f}'
        && digits[i] != '\r' && digits[i] != '\n' && !text::is_space(digits[i]) by {
        assert(number::is_digit(digits[i]));
    }
}

proof fn lemma_reason_is_plain(status: int)
    ensures
        utf8::is_ascii_chars(api::reason_text(status)),
        is_one_line(api::reason_text(status)),
{
    reveal_strlit("OK");
    reveal_strlit("Bad Request");
    reveal_strlit("Unauthorized");
    reveal_strlit("Not Found");
    reveal_strlit("Method Not Allowed");
    reveal_strlit("Error");
}

/// Four lines and the empty line that ends them.
spec fn head_of(a: Seq<char>, b: Seq<char>, c: Seq<char>, d: Seq<char>) -> Seq<char> {
    sent_line(a) + sent_line(b) + sent_line(c) + sent_line(d) + sent_line(Seq::empty())
}

spec fn is_head_line(s: Seq<char>) -> bool {
    utf8::is_ascii_chars(s) && is_one_line(s) && s.len() > 0
}

proof fn lemma_head_end(a: Seq<char>, b: Seq<char>, c: Seq<char>, d: Seq<char>, body: Seq<u8>)
    requires
        is_head_line(a),
        is_head_line(b),
        is_head_line(c),
        is_head_line(d),
    ensures
        ({
            let upto = sent_line(a) + sent_line(b) + sent_line(c) + d;
            let reply = utf8::encode_utf8(head_of(a, b, c, d)) + body;
            &&& search::next_occurrence(reply, remote::head_end(), 0) == Some(upto.len() as int)
            &&& reply.take(upto.len() as int) == utf8::encode_utf8(upto)
            &&& reply.skip(upto.len() as int + 4) == body
        }),
{
    let upto = sent_line(a) + sent_line(b) + sent_line(c) + d;
    let head = head_of(a, b, c, d);
    let end = seq!['\r', '\n', '\r', '\n'];
    assert(head =~= upto + end);
    let crlf = seq!['\r', '\n'];
    lemma_ascii_concat(a, crlf);
    lemma_ascii_concat(b, crlf);
    lemma_ascii_concat(c, crlf);
    lemma_ascii_concat(sent_line(a), sent_line(b));
    lemma_ascii_concat(sent_line(a) + sent_line(b), sent_line(c));
    lemma_ascii_concat(sent_line(a) + sent_line(b) + sent_line(c), d);
    lemma_ascii_concat(upto, end);
    utf8::is_ascii_chars_encode_utf8(upto);
    utf8::is_ascii_chars_encode_utf8(head);
    let bytes = utf8::encode_utf8(head);
    let reply = bytes + body;
    let at = upto.len() as int;
    assert forall|i: int| 0 <= i < head.len() implies #[trigger] bytes[i] == head[i] as u8 && '\0'
        <= head[i] <= '\u{7f}' by {}
    assert(reply.subrange(at, at + 4) =~= remote::head_end()) by {
        assert(bytes[at] == head[at] as u8);
        assert(bytes[at + 1] == head[at + 1] as u8);
        assert(bytes[at + 2] == head[at + 2] as u8);
        assert(bytes[at + 3] == head[at + 3] as u8);
    }
    let pa = a.len() as int;
    let pb = pa + 2 + b.len();
    let pc = pb + 2 + c.len();
    assert forall|i: int| 0 <= i < at implies !search::occurs_at(
        reply,
        remote::head_end(),
        i,
    ) by {
        let four = reply.subrange(i, i + 4);
        assert(four[0] == bytes[i] && four[2] == bytes[i + 2]);
        assert(bytes[i] == head[i] as u8 && bytes[i + 2] == head[i + 2] as u8);
        assert(a.contains(a[0]) && b.contains(b[0]) && c.contains(c[0]) && d.contains(d[0]));
        if i < pa {
            assert(a.contains(a[i]));
        } else if i == pa {
            assert(head[i + 2] == b[0]);
        } else if pa + 2 <= i < pb {
            assert(head[i] == b[i - pa - 2]);
            assert(b.contains(b[i - pa - 2]));
        } else if i == pb {
            assert(head[i + 2] == c[0]);
        } else if pb + 2 <= i < pc {
            assert(head[i] == c[i - pb - 2]);
            assert(c.contains(c[i - pb - 2]));
        } else if i == pc {
            assert(head[i + 2] == d[0]);
        } else if i >= pc + 2 {
            assert(head[i] == d[i - pc - 2]);
            assert(d.contains(d[i - pc - 2]));
        }
        assert(head[i] != '\r' || head[i + 2] != '\r');
        assert(four[0] != 13 || four[2] != 13);
    }
    search::lemma_next_occurrence_is(reply, remote::head_end(), 0, at);
    assert(reply.take(at) =~= utf8::encode_utf8(upto)) by {
        assert forall|i: int| 0 <= i < at implies reply.take(at)[i] == utf8::encode_utf8(
            upto,
        )[i] by {
            assert(bytes[i] == head[i] as u8);
        }
    }
    assert(reply.skip(at + 4) =~= body);
}

/// What a remote search makes of an answer with the given status and body.
pub open spec fn expected_reply(status: int, body: Seq<u8>) -> Result<Seq<u8>, ReplyError> {
    if status == 200 {
        Ok(body)
    } else {
        Err(ReplyError::Failed(status as u16))
    }
}

proof fn lemma_reply_read_back(status: int, content_type: Seq<char>, body: Seq<u8>)
    requires
        0 <= status <= 65535,
        utf8::is_ascii_chars(content_type),
        is_one_line(content_type),
    ensures
        remote::reply_of(api::response_bytes(status, content_type, body)) == expected_reply(
            status,
            body,
        ),
{
    reveal_strlit("HTTP/1.1 ");
    reveal_strlit("HTTP/1.1");
    reveal_strlit(" ");
    reveal_strlit("\r\nContent-Type: ");
    reveal_strlit("Content-Type: ");
    reveal_strlit("\r\nContent-Length: ");
    reveal_strlit("Content-Length: ");
    reveal_strlit("\r\nConnection: close\r\n\r\n");
    reveal_strlit("Connection: close");
    let digits = number::decimal(status as nat);
    let reason = api::reason_text(status);
    let length = number::decimal(body.len());
    lemma_decimal_is_plain(status as nat);
    lemma_decimal_is_plain(body.len());
    lemma_reason_is_plain(status);
    number::law_decimal_read_back(status as nat, 65535);
    let a = "HTTP/1.1 "@ + digits + " "@ + reason;
    let b = "Content-Type: "@ + content_type;
    let c = "Content-Length: "@ + length;
    let d = "Connection: close"@;
    lemma_ascii_concat("HTTP/1.1 "@, digits);
    lemma_ascii_concat("HTTP/1.1 "@ + digits, " "@);
    lemma_ascii_concat("HTTP/1.1 "@ + digits + " "@, reason);
    lemma_one_line_concat("HTTP/1.1 "@, digits);
    lemma_one_line_concat("HTTP/1.1 "@ + digits, " "@);
    lemma_one_line_concat("HTTP/1.1 "@ + digits + " "@, reason);
    lemma_ascii_concat("Content-Type: "@, content_type);
    lemma_one_line_concat("Content-Type: "@, content_type);
    lemma_ascii_concat("Content-Length: "@, length);
    lemma_one_line_concat("Content-Length: "@, length);
    assert(api::response_head(status, content_type, body.len()) =~= head_of(a, b, c, d));
    lemma_head_end(a, b, c, d, body);
    let upto = sent_line(a) + sent_line(b) + sent_line(c) + d;
    utf8::encode_utf8_valid_utf8(upto);
    utf8::encode_utf8_decode_utf8(upto);
    assert(encoding::lossy(utf8::encode_utf8(upto)) == upto);
    let at = a.len() as int + 1;
    assert forall|i: int| 0 <= i < at implies upto[i] != '\n' by {
        if i < a.len() {
            assert(a.contains(a[i]));
        }
    }
    text::lemma_first_index_is(upto, '\n', at);
    assert(upto.take(at) =~= a.push('\r'));
    assert(a.push('\r').drop_last() =~= a);
    assert(text::lines(upto)[0] == a);
    assert(a =~= "HTTP/1.1"@ + seq![' '] + (digits + seq![' '] + reason));
    assert(has_no_space("HTTP/1.1"@));
    lemma_first_word("HTTP/1.1"@, digits + seq![' '] + reason);
    lemma_first_word(digits, reason);
    assert(text::words(a)[1] == digits);
}

/// What the service answers, a remote search reads back: the body where the
/// status is 200, and the status where it is another.
pub proof fn law_answer_read_back(status: int, json: Seq<u8>, plain: Seq<char>)
    requires
        0 <= status <= 65535,
    ensures
        remote::reply_of(api::json_response(status, json)) == expected_reply(status, json),
        remote::reply_of(api::text_response(status, plain)) == expected_reply(
            status,
            utf8::encode_utf8(plain),
        ),
{
    reveal_strlit("application/json");
    reveal_strlit("text/plain; charset=utf-8");
    lemma_reply_read_back(status, "application/json"@, json);
    lemma_reply_read_back(status, "text/plain; charset=utf-8"@, utf8::encode_utf8(plain));
}

/// The request of a remote search is seven lines: what is asked for, the host, the
/// token in two headers, the wished type, that the connection is closed, and an
/// empty line. The target is the path, the encoded keyword and the limit.
pub proof fn law_request_lines(
    endpoint: EndpointView,
    token: Seq<char>,
    keyword: Seq<char>,
    limit: nat,
)
    requires
        is_one_line(endpoint.path),
        is_one_line(endpoint.host),
        is_one_line(token),
    ensures
        ({
            let end = seq!['\r', '\n'];
            let target = endpoint.path + "?q="@ + url::percent_encoded(keyword) + "&limit="@
                + number::decimal(limit);
            api::read_lines(remote::request_text(endpoint, token, keyword, limit)) == seq![
                "GET "@ + target + " HTTP/1.1"@ + end,
                "Host: "@ + endpoint.host + end,
                "Authorization: Bearer "@ + token + end,
                "X-Zap-Token: "@ + token + end,
                "Accept: application/json"@ + end,
                "Connection: close"@ + end,
                end,
            ]
        }),
{
    lemma_request_lines(endpoint, token, keyword, limit);
    assert(sent_line(Seq::empty()) =~= seq!['\r', '\n']);
}

/// The head of an answer is four lines and an empty one: the status and its words,
/// the type of the body, the number of its bytes, and that the connection is
/// closed. The body stands behind it as it is.
pub proof fn law_answer_lines(status: int, content_type: Seq<char>, body: Seq<u8>)
    requires
        is_one_line(content_type),
    ensures
        text::lines(api::response_head(status, content_type, body.len())) == seq![
            "HTTP/1.1 "@ + number::decimal(status as nat) + seq![' '] + api::reason_text(status),
            "Content-Type: "@ + content_type,
            "Content-Length: "@ + number::decimal(body.len()),
            "Connection: close"@,
            Seq::empty(),
        ],
        api::response_bytes(status, content_type, body) == utf8::encode_utf8(
            api::response_head(status, content_type, body.len()),
        ) + body,
{
    reveal_strlit("HTTP/1.1 ");
    reveal_strlit(" ");
    reveal_strlit("\r\nContent-Type: ");
    reveal_strlit("Content-Type: ");
    reveal_strlit("\r\nContent-Length: ");
    reveal_strlit("Content-Length: ");
    reveal_strlit("\r\nConnection: close\r\n\r\n");
    reveal_strlit("Connection: close");
    let digits = number::decimal(status as nat);
    let reason = api::reason_text(status);
    let length = number::decimal(body.len());
    lemma_decimal_is_plain(status as nat);
    lemma_decimal_is_plain(body.len());
    lemma_reason_is_plain(status);
    let a = "HTTP/1.1 "@ + digits + seq![' '] + reason;
    let b = "Content-Type: "@ + content_type;
    let c = "Content-Length: "@ + length;
    let d = "Connection: close"@;
    let none = Seq::<char>::empty();
    lemma_one_line_concat("HTTP/1.1 "@, digits);
    lemma_one_line_concat("HTTP/1.1 "@ + digits, seq![' ']);
    lemma_one_line_concat("HTTP/1.1 "@ + digits + seq![' '], reason);
    lemma_one_line_concat("Content-Type: "@, content_type);
    lemma_one_line_concat("Content-Length: "@, length);
    let head = api::response_head(status, content_type, body.len());
    assert(head =~= sent_line(a) + (sent_line(b) + (sent_line(c) + (sent_line(d) + sent_line(
        none,
    )))));
    text_laws::law_lines_add_up(
        sent_line(a),
        sent_line(b) + (sent_line(c) + (sent_line(d) + sent_line(none))),
    );
    text_laws::law_lines_add_up(
        sent_line(b),
        sent_line(c) + (sent_line(d) + sent_line(none)),
    );
    text_laws::law_lines_add_up(sent_line(c), sent_line(d) + sent_line(none));
    text_laws::law_lines_add_up(sent_line(d), sent_line(none));
    text_laws::law_line_is_kept(a);
    text_laws::law_line_is_kept(b);
    text_laws::law_line_is_kept(c);
    text_laws::law_line_is_kept(d);
    text_laws::law_line_is_kept(none);
    assert(text::lines(head) =~= seq![a, b, c, d, none]);
}

/// Plain answers are text in UTF-8, and the others JSON.
pub proof fn law_types_of_answers(status: int, plain: Seq<char>, json: Seq<u8>)
    ensures
        api::text_response(status, plain) == api::response_bytes(
            status,
            "text/plain; charset=utf-8"@,
            utf8::encode_utf8(plain),
        ),
        api::json_response(status, json) == api::response_bytes(status, "application/json"@, json),
{
}

} // verus!
