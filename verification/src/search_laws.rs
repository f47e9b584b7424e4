//! What holds of every search.
use crate::index;
use crate::index::{IndexedFile, Visit};
use crate::path;
use crate::path_map;
use crate::scope::Scope;
use crate::search;
use crate::search::MatchView;
use crate::text;
use vstd::prelude::*;
use vstd::utf8;

verus! {

/// A limit only cuts: a search gives at most that many matches, and with a
/// greater limit the same ones first. Fewer than the limit are given only where
/// there are no more.
pub proof fn law_limit_only_cuts(
    files: Seq<(Seq<u8>, IndexedFile)>,
    keyword: Seq<char>,
    limit: int,
    greater: int,
)
    requires
        0 <= limit <= greater,
    ensures
        search::search_results(files, keyword, limit).len() <= limit,
        search::search_results(files, keyword, limit).is_prefix_of(
            search::search_results(files, keyword, greater),
        ),
        search::search_results(files, keyword, limit).len() < limit ==> search::search_results(
            files,
            keyword,
            greater,
        ) == search::search_results(files, keyword, limit),
{
    let a = search::search_results(files, keyword, limit);
    let b = search::search_results(files, keyword, greater);
    assert(a =~= b.subrange(0, a.len() as int));
}

/// Whether a match lies in a line of a file, at a place where the needle occurs.
pub open spec fn lies_in_line(m: MatchView, line: Seq<char>, needle: Seq<char>) -> bool {
    &&& m.line == line
    &&& 1 <= m.column <= line.len() + 1
    &&& exists|offset: int|
        m.column == search::source_char(line, offset) + 1 && #[trigger] search::occurs_at(
            utf8::encode_utf8(search::lowercase(line)),
            utf8::encode_utf8(needle),
            offset,
        )
}

/// Whether a match lies in one of the lines of a file.
pub open spec fn lies_in_file(
    m: MatchView,
    file: (Seq<u8>, IndexedFile),
    needle: Seq<char>,
) -> bool {
    let lines = text::texts(file.1.lines@);
    &&& m.path == file.0
    &&& 1 <= m.line_number <= lines.len()
    &&& lies_in_line(m, lines[m.line_number - 1], needle)
}

proof fn lemma_line_match(
    p: Seq<u8>,
    line_number: int,
    line: Seq<char>,
    needle: Seq<char>,
    i: int,
)
    requires
        needle.len() > 0,
        0 <= i < search::line_matches(p, line_number, line, needle).len(),
    ensures
        lies_in_line(search::line_matches(p, line_number, line, needle)[i], line, needle),
{
    let offsets = search::line_offsets(line, needle);
    let hay = utf8::encode_utf8(search::lowercase(line));
    utf8::encode_utf8_first_scalar(needle);
    search::law_occurrences(hay, utf8::encode_utf8(needle), 0);
    search::lemma_covering_range(search::forms_of(line), offsets[i]);
    assert(search::occurs_at(hay, utf8::encode_utf8(needle), offsets[i]));
}

proof fn lemma_file_match(p: Seq<u8>, lines: Seq<Seq<char>>, needle: Seq<char>, i: int)
    requires
        needle.len() > 0,
        0 <= i < search::file_matches(p, lines, needle).len(),
    ensures
        ({
            let m = search::file_matches(p, lines, needle)[i];
            &&& m.path == p
            &&& 1 <= m.line_number <= lines.len()
            &&& lies_in_line(m, lines[m.line_number - 1], needle)
        }),
    decreases lines.len(),
{
    if lines.len() > 0 {
        let before = search::file_matches(p, lines.drop_last(), needle);
        let here = search::line_matches(p, lines.len() as int, lines.last(), needle);
        let all = search::file_matches(p, lines, needle);
        assert(all == before + here);
        if i < before.len() {
            assert(all[i] == before[i]);
            lemma_file_match(p, lines.drop_last(), needle, i);
        } else {
            assert(all[i] == here[i - before.len()]);
            lemma_line_match(p, lines.len() as int, lines.last(), needle, i - before.len());
        }
    }
}

proof fn lemma_index_match(files: Seq<(Seq<u8>, IndexedFile)>, needle: Seq<char>, i: int) -> (f: int)
    requires
        needle.len() > 0,
        0 <= i < search::index_matches(files, needle).len(),
    ensures
        0 <= f < files.len(),
        lies_in_file(search::index_matches(files, needle)[i], files[f], needle),
    decreases files.len(),
{
    if files.len() > 0 {
        let before = search::index_matches(files.drop_last(), needle);
        let last = files.last();
        let here = search::file_matches(last.0, text::texts(last.1.lines@), needle);
        let all = search::index_matches(files, needle);
        assert(all == before + here);
        if i < before.len() {
            assert(all[i] == before[i]);
            lemma_index_match(files.drop_last(), needle, i)
        } else {
            assert(all[i] == here[i - before.len()]);
            lemma_file_match(last.0, text::texts(last.1.lines@), needle, i - before.len());
            files.len() - 1
        }
    } else {
        0
    }
}

/// Every match of a search lies in a line of a file of the index, carries that
/// line and the file's path, and stands where the keyword occurs in the line,
/// both in lower case.
pub proof fn law_matches_lie_in_index(
    files: Seq<(Seq<u8>, IndexedFile)>,
    keyword: Seq<char>,
    limit: int,
    i: int,
)
    requires
        0 <= i < search::search_results(files, keyword, limit).len(),
        0 <= limit,
    ensures
        exists|f: int|
            0 <= f < files.len() && #[trigger] lies_in_file(
                search::search_results(files, keyword, limit)[i],
                files[f],
                search::lowercase(keyword),
            ),
{
    let f = lemma_index_match(files, search::lowercase(keyword), i);
    assert(search::search_results(files, keyword, limit)[i] == search::index_matches(
        files,
        search::lowercase(keyword),
    )[i]);
}

proof fn lemma_file_has_line(p: Seq<u8>, lines: Seq<Seq<char>>, needle: Seq<char>, l: int) -> (i: int)
    requires
        0 <= l < lines.len(),
        search::line_matches(p, l + 1, lines[l], needle).len() > 0,
    ensures
        0 <= i < search::file_matches(p, lines, needle).len(),
        search::file_matches(p, lines, needle)[i].line_number == l + 1,
        search::file_matches(p, lines, needle)[i].line == lines[l],
        search::file_matches(p, lines, needle)[i].path == p,
    decreases lines.len(),
{
    let before = search::file_matches(p, lines.drop_last(), needle);
    let here = search::line_matches(p, lines.len() as int, lines.last(), needle);
    let all = search::file_matches(p, lines, needle);
    assert(all == before + here);
    if l == lines.len() - 1 {
        assert(all[before.len() as int] == here[0]);
        before.len() as int
    } else {
        assert(lines.drop_last()[l] == lines[l]);
        let i = lemma_file_has_line(p, lines.drop_last(), needle, l);
        assert(all[i] == before[i]);
        i
    }
}

proof fn lemma_index_has_line(
    files: Seq<(Seq<u8>, IndexedFile)>,
    needle: Seq<char>,
    f: int,
    l: int,
) -> (i: int)
    requires
        0 <= f < files.len(),
        0 <= l < files[f].1.lines@.len(),
        search::line_matches(
            files[f].0,
            l + 1,
            text::texts(files[f].1.lines@)[l],
            needle,
        ).len() > 0,
    ensures
        0 <= i < search::index_matches(files, needle).len(),
        search::index_matches(files, needle)[i].path == files[f].0,
        search::index_matches(files, needle)[i].line_number == l + 1,
        search::index_matches(files, needle)[i].line == text::texts(files[f].1.lines@)[l],
    decreases files.len(),
{
    let before = search::index_matches(files.drop_last(), needle);
    let last = files.last();
    let here = search::file_matches(last.0, text::texts(last.1.lines@), needle);
    let all = search::index_matches(files, needle);
    assert(all == before + here);
    if f == files.len() - 1 {
        let i = lemma_file_has_line(last.0, text::texts(last.1.lines@), needle, l);
        assert(all[before.len() + i] == here[i]);
        before.len() + i
    } else {
        assert(files.drop_last()[f] == files[f]);
        let i = lemma_index_has_line(files.drop_last(), needle, f, l);
        assert(all[i] == before[i]);
        i
    }
}

/// Every line of the index in which the keyword occurs, both in lower case, is
/// among the matches of a search whose limit leaves room for all of them.
pub proof fn law_every_line_is_found(
    files: Seq<(Seq<u8>, IndexedFile)>,
    keyword: Seq<char>,
    limit: int,
    f: int,
    l: int,
    offset: int,
)
    requires
        0 <= f < files.len(),
        0 <= l < files[f].1.lines@.len(),
        search::lowercase(keyword).len() > 0,
        search::occurs_at(
            utf8::encode_utf8(search::lowercase(text::texts(files[f].1.lines@)[l])),
            utf8::encode_utf8(search::lowercase(keyword)),
            offset,
        ),
        search::index_matches(files, search::lowercase(keyword)).len() <= limit,
    ensures
        exists|i: int|
            0 <= i < search::search_results(files, keyword, limit).len()
                && (#[trigger] search::search_results(files, keyword, limit)[i]).path == files[f].0
                && search::search_results(files, keyword, limit)[i].line_number == l + 1
                && search::search_results(files, keyword, limit)[i].line == text::texts(
                files[f].1.lines@,
            )[l],
{
    let needle = search::lowercase(keyword);
    let line = text::texts(files[f].1.lines@)[l];
    utf8::encode_utf8_first_scalar(needle);
    search::law_no_occurrence_is_missed(
        utf8::encode_utf8(search::lowercase(line)),
        utf8::encode_utf8(needle),
        0,
        offset,
    );
    assert(search::line_matches(files[f].0, l + 1, line, needle).len() > 0);
    let i = lemma_index_has_line(files, needle, f, l);
    assert(search::search_results(files, keyword, limit)[i] == search::index_matches(
        files,
        needle,
    )[i]);
}

proof fn lemma_covering_grows(forms: Seq<Seq<char>>, a: int, b: int)
    requires
        a <= b,
    ensures
        search::covering(forms, a) <= search::covering(forms, b),
    decreases forms.len(),
{
    search::lemma_covering_range(forms, b);
    if forms.len() > 0 && search::width(forms[0]) <= a {
        let w = search::width(forms[0]);
        lemma_covering_grows(forms.drop_first(), a - w, b - w);
    }
}

/// The order of matches: by path, then by line, then by column.
pub open spec fn not_after(a: MatchView, b: MatchView) -> bool {
    ||| path::path_before(a.path, b.path)
    ||| a.path == b.path && a.line_number < b.line_number
    ||| a.path == b.path && a.line_number == b.line_number && a.column <= b.column
}

proof fn lemma_file_order(p: Seq<u8>, lines: Seq<Seq<char>>, needle: Seq<char>, i: int, j: int)
    requires
        needle.len() > 0,
        0 <= i < j < search::file_matches(p, lines, needle).len(),
    ensures
        not_after(
            search::file_matches(p, lines, needle)[i],
            search::file_matches(p, lines, needle)[j],
        ),
    decreases lines.len(),
{
    if lines.len() > 0 {
        let before = search::file_matches(p, lines.drop_last(), needle);
        let here = search::line_matches(p, lines.len() as int, lines.last(), needle);
        let all = search::file_matches(p, lines, needle);
        assert(all == before + here);
        if j < before.len() {
            lemma_file_order(p, lines.drop_last(), needle, i, j);
        } else if i < before.len() {
            lemma_file_match(p, lines.drop_last(), needle, i);
            assert(all[j] == here[j - before.len()]);
        } else {
            let offsets = search::line_offsets(lines.last(), needle);
            let x = i - before.len();
            let y = j - before.len();
            utf8::encode_utf8_first_scalar(needle);
            search::law_occurrences(
                utf8::encode_utf8(search::lowercase(lines.last())),
                utf8::encode_utf8(needle),
                0,
            );
            assert(offsets[x] + utf8::encode_utf8(needle).len() <= offsets[y]);
            lemma_covering_grows(search::forms_of(lines.last()), offsets[x], offsets[y]);
            assert(all[i] == here[x] && all[j] == here[y]);
        }
    }
}

proof fn lemma_index_order(files: Seq<(Seq<u8>, IndexedFile)>, needle: Seq<char>, i: int, j: int)
    requires
        path_map::in_path_order(files),
        needle.len() > 0,
        0 <= i < j < search::index_matches(files, needle).len(),
    ensures
        not_after(
            search::index_matches(files, needle)[i],
            search::index_matches(files, needle)[j],
        ),
    decreases files.len(),
{
    if files.len() > 0 {
        let rest = files.drop_last();
        let before = search::index_matches(rest, needle);
        let last = files.last();
        let here = search::file_matches(last.0, text::texts(last.1.lines@), needle);
        let all = search::index_matches(files, needle);
        assert(all == before + here);
        assert(path_map::in_path_order(rest)) by {
            assert forall|x: int, y: int| 0 <= x < y < rest.len() implies path::path_before(
                #[trigger] rest[x].0,
                #[trigger] rest[y].0,
            ) by {
                assert(rest[x] == files[x] && rest[y] == files[y]);
            }
        }
        if j < before.len() {
            lemma_index_order(rest, needle, i, j);
        } else if i < before.len() {
            let f = lemma_index_match(rest, needle, i);
            lemma_file_match(last.0, text::texts(last.1.lines@), needle, j - before.len());
            assert(all[i] == before[i] && all[j] == here[j - before.len()]);
            assert(rest[f] == files[f]);
            assert(path::path_before(files[f].0, files[files.len() - 1].0));
        } else {
            lemma_file_order(
                last.0,
                text::texts(last.1.lines@),
                needle,
                i - before.len(),
                j - before.len(),
            );
        }
    }
}

/// The matches of a search come in the order of their paths, lines and columns.
pub proof fn law_matches_in_order(
    files: Seq<(Seq<u8>, IndexedFile)>,
    keyword: Seq<char>,
    limit: int,
    i: int,
    j: int,
)
    requires
        path_map::in_path_order(files),
        0 <= limit,
        0 <= i < j < search::search_results(files, keyword, limit).len(),
    ensures
        not_after(
            search::search_results(files, keyword, limit)[i],
            search::search_results(files, keyword, limit)[j],
        ),
{
    lemma_index_order(files, search::lowercase(keyword), i, j);
}

/// The case of the ASCII letters of an ASCII keyword does not matter.
pub proof fn law_keyword_case_is_ignored(
    files: Seq<(Seq<u8>, IndexedFile)>,
    keyword: Seq<char>,
    other: Seq<char>,
    limit: int,
)
    requires
        utf8::is_ascii_chars(keyword),
        utf8::is_ascii_chars(other),
        text::same_ignoring_case(keyword, other),
    ensures
        search::search_results(files, keyword, limit) == search::search_results(
            files,
            other,
            limit,
        ),
{
    assert(search::lowercase(keyword) =~= search::lowercase(other));
}

proof fn lemma_ascii_source_char(line: Seq<char>, offset: int)
    requires
        utf8::is_ascii_chars(line),
        0 <= offset <= line.len(),
    ensures
        search::source_char(line, offset) == offset,
    decreases line.len(),
{
    if line.len() > 0 {
        let c = line[0];
        assert('\0' <= c <= '\u{7f}');
        let lower = seq![text::ascii_lower(c)];
        let forms = search::forms_of(line);
        assert(forms[0] == lower);
        assert(utf8::is_ascii_chars(lower));
        utf8::is_ascii_chars_encode_utf8(lower);
        assert(search::width(forms[0]) == 1);
        if offset > 0 {
            assert(utf8::is_ascii_chars(line.drop_first())) by {
                assert forall|i: int| 0 <= i < line.drop_first().len() implies '\0'
                    <= #[trigger] line.drop_first()[i] <= '\u{7f}' by {
                    assert('\0' <= line[i + 1] <= '\u{7f}');
                }
            }
            assert(forms.drop_first() =~= search::forms_of(line.drop_first()));
            lemma_ascii_source_char(line.drop_first(), offset - 1);
        }
    }
}

proof fn lemma_ascii_lowercase(s: Seq<char>)
    requires
        utf8::is_ascii_chars(s),
    ensures
        utf8::is_ascii_chars(search::lowercase(s)),
        search::lowercase(s).len() == s.len(),
{
    let lower = search::lowercase(s);
    assert forall|i: int| 0 <= i < lower.len() implies '\0' <= #[trigger] lower[i] <= '\u{7f}' by {
        assert('\0' <= s[i] <= '\u{7f}');
        assert(lower[i] == text::ascii_lower(s[i]));
    }
}

/// In an ASCII line, the characters from the column of a match on are those of
/// the keyword, but for their case.
pub proof fn law_column_points_at_keyword(
    files: Seq<(Seq<u8>, IndexedFile)>,
    keyword: Seq<char>,
    limit: int,
    i: int,
)
    requires
        0 <= limit,
        0 <= i < search::search_results(files, keyword, limit).len(),
        utf8::is_ascii_chars(keyword),
        utf8::is_ascii_chars(search::search_results(files, keyword, limit)[i].line),
    ensures
        ({
            let m = search::search_results(files, keyword, limit)[i];
            &&& 1 <= m.column
            &&& m.column - 1 + keyword.len() <= m.line.len()
            &&& text::same_ignoring_case(
                m.line.subrange(m.column - 1, m.column - 1 + keyword.len()),
                keyword,
            )
        }),
{
    let m = search::search_results(files, keyword, limit)[i];
    let needle = search::lowercase(keyword);
    law_matches_lie_in_index(files, keyword, limit, i);
    let f = choose|f: int| 0 <= f < files.len() && #[trigger] lies_in_file(m, files[f], needle);
    let hay = search::lowercase(m.line);
    let offset = choose|offset: int|
        m.column == search::source_char(m.line, offset) + 1 && #[trigger] search::occurs_at(
            utf8::encode_utf8(hay),
            utf8::encode_utf8(needle),
            offset,
        );
    lemma_ascii_lowercase(m.line);
    lemma_ascii_lowercase(keyword);
    utf8::is_ascii_chars_encode_utf8(hay);
    utf8::is_ascii_chars_encode_utf8(needle);
    lemma_ascii_source_char(m.line, offset);
    let piece = m.line.subrange(m.column - 1, m.column - 1 + keyword.len());
    assert forall|k: int| 0 <= k < piece.len() implies text::ascii_lower(#[trigger] piece[k])
        == text::ascii_lower(keyword[k]) by {
        let h = utf8::encode_utf8(hay);
        let n = utf8::encode_utf8(needle);
        assert(h.subrange(offset, offset + n.len())[k] == h[offset + k]);
        assert(h[offset + k] == hay[offset + k] as u8);
        assert(n[k] == needle[k] as u8);
        assert('\0' <= hay[offset + k] <= '\u{7f}');
        assert('\0' <= needle[k] <= '\u{7f}');
        assert(hay[offset + k] == text::ascii_lower(m.line[offset + k]));
        assert(needle[k] == text::ascii_lower(keyword[k]));
    }
}

/// In an ASCII line, a later match of the same line starts behind the end of an
/// earlier one. Otherwise it has a later line or a later path.
pub proof fn law_matches_in_ascii_lines_are_apart(
    files: Seq<(Seq<u8>, IndexedFile)>,
    keyword: Seq<char>,
    limit: int,
    i: int,
    j: int,
)
    requires
        path_map::in_path_order(files),
        0 <= limit,
        0 <= i < j < search::search_results(files, keyword, limit).len(),
        utf8::is_ascii_chars(search::search_results(files, keyword, limit)[i].line),
    ensures
        ({
            let a = search::search_results(files, keyword, limit)[i];
            let b = search::search_results(files, keyword, limit)[j];
            ||| path::path_before(a.path, b.path)
            ||| a.path == b.path && a.line_number < b.line_number
            ||| a.path == b.path && a.line_number == b.line_number && a.column
                + search::lowercase(keyword).len() <= b.column
        }),
{
    lemma_index_apart(files, search::lowercase(keyword), i, j);
}

/// Whether the second match starts behind the end of the first one, or in another
/// line or path behind that of the first.
spec fn is_apart(a: MatchView, b: MatchView, size: nat) -> bool {
    ||| path::path_before(a.path, b.path)
    ||| a.path == b.path && a.line_number < b.line_number
    ||| a.path == b.path && a.line_number == b.line_number && a.column + size <= b.column
}

proof fn lemma_at_least_one_byte_each(s: Seq<char>)
    ensures
        s.len() <= utf8::encode_utf8(s).len(),
    decreases s.len(),
{
    if s.len() > 0 {
        lemma_at_least_one_byte_each(s.drop_first());
        utf8::encode_utf8_first_scalar(s);
    }
}

proof fn lemma_file_apart(p: Seq<u8>, lines: Seq<Seq<char>>, needle: Seq<char>, i: int, j: int)
    requires
        needle.len() > 0,
        0 <= i < j < search::file_matches(p, lines, needle).len(),
        utf8::is_ascii_chars(search::file_matches(p, lines, needle)[i].line),
    ensures
        is_apart(
            search::file_matches(p, lines, needle)[i],
            search::file_matches(p, lines, needle)[j],
            needle.len(),
        ),
    decreases lines.len(),
{
    if lines.len() > 0 {
        let before = search::file_matches(p, lines.drop_last(), needle);
        let line = lines.last();
        let here = search::line_matches(p, lines.len() as int, line, needle);
        let all = search::file_matches(p, lines, needle);
        assert(all == before + here);
        if j < before.len() {
            assert(all[i] == before[i] && all[j] == before[j]);
            lemma_file_apart(p, lines.drop_last(), needle, i, j);
        } else if i < before.len() {
            lemma_file_match(p, lines.drop_last(), needle, i);
            assert(all[i] == before[i]);
            assert(all[j] == here[j - before.len()]);
        } else {
            let x = i - before.len();
            let y = j - before.len();
            let offsets = search::line_offsets(line, needle);
            let hay = utf8::encode_utf8(search::lowercase(line));
            assert(all[i] == here[x] && all[j] == here[y]);
            assert(here[x].line == line);
            utf8::encode_utf8_first_scalar(needle);
            search::law_occurrences(hay, utf8::encode_utf8(needle), 0);
            assert(offsets[x] + utf8::encode_utf8(needle).len() <= offsets[y]);
            assert(search::occurs_at(hay, utf8::encode_utf8(needle), offsets[x]));
            assert(search::occurs_at(hay, utf8::encode_utf8(needle), offsets[y]));
            lemma_ascii_lowercase(line);
            utf8::is_ascii_chars_encode_utf8(search::lowercase(line));
            lemma_ascii_source_char(line, offsets[x]);
            lemma_ascii_source_char(line, offsets[y]);
            lemma_at_least_one_byte_each(needle);
        }
    }
}

proof fn lemma_index_apart(files: Seq<(Seq<u8>, IndexedFile)>, needle: Seq<char>, i: int, j: int)
    requires
        path_map::in_path_order(files),
        needle.len() > 0,
        0 <= i < j < search::index_matches(files, needle).len(),
        utf8::is_ascii_chars(search::index_matches(files, needle)[i].line),
    ensures
        is_apart(
            search::index_matches(files, needle)[i],
            search::index_matches(files, needle)[j],
            needle.len(),
        ),
    decreases files.len(),
{
    if files.len() > 0 {
        let rest = files.drop_last();
        let before = search::index_matches(rest, needle);
        let last = files.last();
        let here = search::file_matches(last.0, text::texts(last.1.lines@), needle);
        let all = search::index_matches(files, needle);
        assert(all == before + here);
        if j < before.len() {
            assert(path_map::in_path_order(rest)) by {
                assert forall|x: int, y: int| 0 <= x < y < rest.len() implies path::path_before(
                    #[trigger] rest[x].0,
                    #[trigger] rest[y].0,
                ) by {
                    assert(rest[x] == files[x] && rest[y] == files[y]);
                }
            }
            assert(all[i] == before[i] && all[j] == before[j]);
            lemma_index_apart(rest, needle, i, j);
        } else if i < before.len() {
            let f = lemma_index_match(rest, needle, i);
            lemma_file_match(last.0, text::texts(last.1.lines@), needle, j - before.len());
            assert(all[i] == before[i] && all[j] == here[j - before.len()]);
            assert(rest[f] == files[f]);
            assert(path::path_before(files[f].0, files[files.len() - 1].0));
        } else {
            assert(all[i] == here[i - before.len()] && all[j] == here[j - before.len()]);
            lemma_file_apart(
                last.0,
                text::texts(last.1.lines@),
                needle,
                i - before.len(),
                j - before.len(),
            );
        }
    }
}

/// Texts, put one behind the other.
pub open spec fn chained(forms: Seq<Seq<char>>) -> Seq<char>
    decreases forms.len(),
{
    if forms.len() == 0 {
        Seq::empty()
    } else {
        forms[0] + chained(forms.drop_first())
    }
}

proof fn lemma_prefix_chars(s: Seq<char>, prefix: Seq<char>)
    requires
        utf8::encode_utf8(prefix).is_prefix_of(utf8::encode_utf8(s)),
    ensures
        prefix.is_prefix_of(s),
    decreases prefix.len(),
{
    let whole = utf8::encode_utf8(s);
    let part = utf8::encode_utf8(prefix);
    if prefix.len() == 0 {
        assert(prefix =~= s.subrange(0, 0));
    } else {
        utf8::encode_utf8_first_scalar(prefix);
        assert(part.len() > 0);
        assert(s.len() > 0);
        utf8::encode_utf8_first_scalar(s);
        assert forall|i: int| 0 <= i < part.len() implies part[i] == whole[i] by {
            assert(whole.subrange(0, part.len() as int)[i] == whole[i]);
        }
        assert(utf8::decode_first_scalar(part) == utf8::decode_first_scalar(whole));
        utf8::char_u32_cast(prefix[0], utf8::decode_first_scalar(part));
        utf8::char_u32_cast(s[0], utf8::decode_first_scalar(part));
        assert(prefix[0] == s[0]);
        let head = utf8::encode_scalar(s[0] as u32);
        let x = prefix.drop_first();
        let y = s.drop_first();
        assert(part == head + utf8::encode_utf8(x));
        assert(whole == head + utf8::encode_utf8(y));
        assert(utf8::encode_utf8(x) =~= utf8::encode_utf8(y).subrange(
            0,
            utf8::encode_utf8(x).len() as int,
        )) by {
            assert forall|i: int| 0 <= i < utf8::encode_utf8(x).len() implies utf8::encode_utf8(
                x,
            )[i] == utf8::encode_utf8(y)[i] by {
                assert(part[i + head.len()] == whole[i + head.len()]);
            }
        }
        lemma_prefix_chars(y, x);
        assert(prefix =~= s.subrange(0, prefix.len() as int)) by {
            assert forall|i: int| 0 <= i < prefix.len() implies prefix[i] == s[i] by {
                if i > 0 {
                    assert(y.subrange(0, x.len() as int)[i - 1] == y[i - 1]);
                }
            }
        }
    }
}

/// An occurrence among the bytes of a text is one among its characters.
proof fn lemma_occurrence_of_chars(s: Seq<char>, needle: Seq<char>, at: int) -> (k: int)
    requires
        needle.len() > 0,
        search::occurs_at(utf8::encode_utf8(s), utf8::encode_utf8(needle), at),
    ensures
        0 <= k <= s.len(),
        utf8::encode_utf8(s.take(k)).len() == at,
        needle.is_prefix_of(s.skip(k)),
{
    let bytes = utf8::encode_utf8(s);
    let n = utf8::encode_utf8(needle);
    search::law_occurrence_on_boundary(s, needle, at);
    utf8::encode_utf8_valid_utf8(s);
    utf8::valid_utf8_split(bytes, at);
    utf8::decode_utf8_split(bytes, at);
    let first = bytes.subrange(0, at);
    let second = bytes.subrange(at, bytes.len() as int);
    let a = utf8::decode_utf8(first);
    let b = utf8::decode_utf8(second);
    utf8::encode_utf8_decode_utf8(s);
    utf8::decode_utf8_encode_utf8(first);
    utf8::decode_utf8_encode_utf8(second);
    assert(s =~= a + b);
    assert(s.take(a.len() as int) =~= a);
    assert(s.skip(a.len() as int) =~= b);
    assert(n =~= second.subrange(0, n.len() as int)) by {
        assert(bytes.subrange(at, at + n.len()) =~= second.subrange(0, n.len() as int));
    }
    lemma_prefix_chars(b, needle);
    a.len() as int
}

proof fn lemma_covering_form(forms: Seq<Seq<char>>, needle: Seq<char>, at: int) -> (k: int)
    requires
        needle.len() > 0,
        search::occurs_at(utf8::encode_utf8(chained(forms)), utf8::encode_utf8(needle), at),
    ensures
        ({
            let c = search::covering(forms, at);
            &&& 0 <= c < forms.len()
            &&& 0 <= k < forms[c].len()
            &&& needle.is_prefix_of(chained(forms.skip(c)).skip(k))
        }),
    decreases forms.len(),
{
    let all = chained(forms);
    let bytes = utf8::encode_utf8(all);
    let n = utf8::encode_utf8(needle);
    utf8::encode_utf8_first_scalar(needle);
    if forms.len() == 0 {
        0
    } else {
        let head = forms[0];
        let rest = forms.drop_first();
        let tail = chained(rest);
        search::lemma_encode_concat(head, tail);
        if search::width(head) > at {
            let k = lemma_occurrence_of_chars(all, needle, at);
            if k >= head.len() {
                let more = all.take(k).skip(head.len() as int);
                assert(all.take(k) =~= head + more);
                search::lemma_encode_concat(head, more);
            }
            assert(forms.skip(0) =~= forms);
            k
        } else {
            let w = search::width(head);
            let shifted = utf8::encode_utf8(tail);
            assert(bytes.subrange(at, at + n.len()) =~= shifted.subrange(at - w, at - w + n.len()));
            let k = lemma_covering_form(rest, needle, at - w);
            let c = search::covering(rest, at - w);
            assert(forms.skip(c + 1) =~= rest.skip(c));
            k
        }
    }
}

/// The keyword in lower case starts at the character of the column: within the
/// lower-case form of that character, and goes on in those of the characters
/// behind it. This is so in every line that is brought into lower case character
/// by character.
pub proof fn law_column_points_at_lowered_keyword(
    files: Seq<(Seq<u8>, IndexedFile)>,
    keyword: Seq<char>,
    limit: int,
    i: int,
)
    requires
        0 <= limit,
        0 <= i < search::search_results(files, keyword, limit).len(),
        ({
            let line = search::search_results(files, keyword, limit)[i].line;
            search::lowercase(line) == chained(search::forms_of(line))
        }),
    ensures
        ({
            let m = search::search_results(files, keyword, limit)[i];
            let at = m.column - 1;
            &&& 0 <= at < m.line.len()
            &&& exists|k: int|
                0 <= k < search::lowercase_of(m.line[at]).len() && search::lowercase(
                    keyword,
                ).is_prefix_of(#[trigger] chained(search::forms_of(m.line.skip(at))).skip(k))
        }),
{
    let m = search::search_results(files, keyword, limit)[i];
    let needle = search::lowercase(keyword);
    law_matches_lie_in_index(files, keyword, limit, i);
    let f = choose|f: int| 0 <= f < files.len() && #[trigger] lies_in_file(m, files[f], needle);
    let offset = choose|offset: int|
        m.column == search::source_char(m.line, offset) + 1 && #[trigger] search::occurs_at(
            utf8::encode_utf8(search::lowercase(m.line)),
            utf8::encode_utf8(needle),
            offset,
        );
    let forms = search::forms_of(m.line);
    let k = lemma_covering_form(forms, needle, offset);
    let at = m.column - 1;
    assert(forms.skip(at) =~= search::forms_of(m.line.skip(at)));
    assert(needle.is_prefix_of(chained(search::forms_of(m.line.skip(at))).skip(k)));
}

/// What was read of a file that belongs into the index is found there: a line
/// in which the keyword occurs, both in lower case, is among the matches of a
/// search whose limit leaves room for all of them.
pub proof fn law_what_was_read_is_found(
    scope: Scope,
    visits: Seq<Visit<IndexedFile>>,
    key: Seq<u8>,
    l: int,
    offset: int,
    keyword: Seq<char>,
    limit: int,
)
    requires
        index::last_read(scope, visits, key) is Some,
        0 <= l < index::last_read(scope, visits, key)->0.lines@.len(),
        search::lowercase(keyword).len() > 0,
        search::occurs_at(
            utf8::encode_utf8(
                search::lowercase(index::last_read(scope, visits, key)->0.lines@[l]@),
            ),
            utf8::encode_utf8(search::lowercase(keyword)),
            offset,
        ),
        search::index_matches(
            index::collected(scope, visits),
            search::lowercase(keyword),
        ).len() <= limit,
    ensures
        ({
            let results = search::search_results(index::collected(scope, visits), keyword, limit);
            exists|i: int|
                0 <= i < results.len() && path::same_path((#[trigger] results[i]).path, key)
                    && results[i].line_number == l + 1 && results[i].line
                    == index::last_read(scope, visits, key)->0.lines@[l]@
        }),
{
    let files = index::collected(scope, visits);
    index::law_walk_stores_what_was_read(scope, visits, key);
    path_map::lemma_count_before(files, key);
    let f = path_map::count_before(files, key);
    let file = index::last_read(scope, visits, key)->0;
    assert(files[f].1 == file);
    assert(text::texts(file.lines@)[l] == file.lines@[l]@);
    law_every_line_is_found(files, keyword, limit, f, l, offset);
}

/// A search of the index that a walk gives finds nothing but files that belong
/// into the index.
pub proof fn law_only_indexed_files_are_found(
    scope: Scope,
    visits: Seq<Visit<IndexedFile>>,
    keyword: Seq<char>,
    limit: int,
    i: int,
)
    requires
        0 <= limit,
        0 <= i < search::search_results(index::collected(scope, visits), keyword, limit).len(),
    ensures
        scope.indexes(
            search::search_results(index::collected(scope, visits), keyword, limit)[i].path,
        ),
{
    let files = index::collected(scope, visits);
    index::law_walk_stores_indexed_files(scope, visits);
    law_matches_lie_in_index(files, keyword, limit, i);
    let m = search::search_results(files, keyword, limit)[i];
    let f = choose|f: int|
        0 <= f < files.len() && #[trigger] lies_in_file(m, files[f], search::lowercase(keyword));
    assert(scope.indexes(files[f].0));
}

/// Lower case: of a text in ASCII the letters from A to Z are made small and nothing
/// else is changed; any other text becomes what the standard library makes of it.
pub proof fn law_lower_case(s: Seq<char>, c: char)
    ensures
        utf8::is_ascii_chars(s) ==> search::lowercase(s).len() == s.len(),
        forall|i: int|
            utf8::is_ascii_chars(s) && 0 <= i < s.len() ==> #[trigger] search::lowercase(s)[i]
                == text::ascii_lower(s[i]),
        !utf8::is_ascii_chars(s) ==> search::lowercase(s) == search::unicode_lowercase(s),
        c <= '\u{7f}' ==> search::lowercase_of(c) == seq![text::ascii_lower(c)],
        c > '\u{7f}' ==> search::lowercase_of(c) == search::unicode_lowercase_of(c),
        search::forms_of(s).len() == s.len(),
        forall|i: int|
            0 <= i < s.len() ==> #[trigger] search::forms_of(s)[i] == search::lowercase_of(s[i]),
{
}

/// The files of an index are searched one after the other, and each one for itself.
pub proof fn law_files_are_searched_one_by_one(
    a: Seq<(Seq<u8>, IndexedFile)>,
    b: Seq<(Seq<u8>, IndexedFile)>,
    needle: Seq<char>,
)
    ensures
        search::index_matches(a + b, needle) == search::index_matches(a, needle)
            + search::index_matches(b, needle),
        a.len() == 1 ==> search::index_matches(a, needle) == search::file_matches(
            a[0].0,
            text::texts(a[0].1.lines@),
            needle,
        ),
        a.len() == 0 ==> search::index_matches(a, needle).len() == 0,
    decreases b.len(),
{
    if a.len() == 1 {
        assert(a.drop_last() =~= Seq::<(Seq<u8>, IndexedFile)>::empty());
        reveal_with_fuel(search::index_matches, 2);
        assert(search::index_matches(a, needle) =~= search::file_matches(
            a[0].0,
            text::texts(a[0].1.lines@),
            needle,
        ));
    }
    if b.len() == 0 {
        assert(a + b =~= a);
        assert(search::index_matches(a, needle) + search::index_matches(b, needle)
            =~= search::index_matches(a, needle));
    } else {
        assert((a + b).drop_last() =~= a + b.drop_last());
        law_files_are_searched_one_by_one(a, b.drop_last(), needle);
        assert(search::index_matches(a + b, needle) =~= search::index_matches(a, needle)
            + search::index_matches(b, needle));
    }
}

/// The lines of a file are searched one after the other, each under its number
/// counted from 1. A line has as many matches as the needle has occurrences in it,
/// and each carries the path, the line and the column of its occurrence.
pub proof fn law_lines_are_searched_one_by_one(
    p: Seq<u8>,
    lines: Seq<Seq<char>>,
    line: Seq<char>,
    needle: Seq<char>,
    i: int,
)
    ensures
        ({
            let offsets = search::occurrences(
                utf8::encode_utf8(search::lowercase(line)),
                utf8::encode_utf8(needle),
                0,
            );
            let before = search::file_matches(p, lines, needle);
            let all = search::file_matches(p, lines.push(line), needle);
            let m = all[before.len() + i];
            &&& search::file_matches(p, Seq::empty(), needle).len() == 0
            &&& before.is_prefix_of(all)
            &&& all.len() == before.len() + offsets.len()
            &&& 0 <= i < offsets.len() ==> {
                &&& m.path == p
                &&& m.line_number == lines.len() + 1
                &&& m.line == line
                &&& m.column == search::covering(search::forms_of(line), offsets[i]) + 1
            }
        }),
{
    let longer = lines.push(line);
    assert(longer.drop_last() =~= lines);
    let before = search::file_matches(p, lines, needle);
    let all = search::file_matches(p, longer, needle);
    assert(before =~= all.subrange(0, before.len() as int));
}

/// A byte of texts that are put one behind the other is covered by the text at
/// position `c` exactly where the texts before it end at or before the byte, and
/// those up to it behind it.
pub proof fn law_covering_text(forms: Seq<Seq<char>>, c: int, offset: int)
    requires
        0 <= c < forms.len(),
        utf8::encode_utf8(chained(forms.take(c))).len() <= offset,
        offset < utf8::encode_utf8(chained(forms.take(c + 1))).len(),
    ensures
        search::covering(forms, offset) == c,
    decreases forms.len(),
{
    let head = forms[0];
    let rest = forms.drop_first();
    let more = forms.take(c + 1);
    assert(more[0] == head);
    assert(more.drop_first() =~= rest.take(c));
    search::lemma_encode_concat(head, chained(rest.take(c)));
    if c == 0 {
        assert(rest.take(0) =~= Seq::<Seq<char>>::empty());
        assert(chained(rest.take(0)) =~= Seq::<char>::empty());
        assert(utf8::encode_utf8(Seq::<char>::empty()) =~= Seq::<u8>::empty());
    } else {
        let some = forms.take(c);
        assert(some[0] == head);
        assert(some.drop_first() =~= rest.take(c - 1));
        search::lemma_encode_concat(head, chained(rest.take(c - 1)));
        assert(rest.take(c - 1 + 1) =~= rest.take(c));
        law_covering_text(rest, c - 1, offset - search::width(head));
    }
}

/// Nothing is found for a keyword that is empty in lower case; otherwise a search
/// whose limit leaves room gives all the matches of the index.
pub proof fn law_search_gives_all(
    files: Seq<(Seq<u8>, IndexedFile)>,
    keyword: Seq<char>,
    limit: int,
)
    ensures
        search::lowercase(keyword).len() == 0 ==> search::search_results(
            files,
            keyword,
            limit,
        ).len() == 0,
        search::lowercase(keyword).len() > 0 && search::index_matches(
            files,
            search::lowercase(keyword),
        ).len() <= limit ==> search::search_results(files, keyword, limit)
            == search::index_matches(files, search::lowercase(keyword)),
{
}

} // verus!
