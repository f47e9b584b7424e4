//! Searching the index for a keyword.
use crate::index::{Index, IndexedFile};
use crate::text;
use vstd::prelude::*;
use vstd::slice::{slice_subrange, slice_to_vec};
use vstd::utf8;

verus! {

/// The text that `str::to_lowercase` makes of a text that is not all ASCII.
pub uninterp spec fn unicode_lowercase(s: Seq<char>) -> Seq<char>;

/// The text that `char::to_lowercase` makes of a character beyond ASCII.
pub uninterp spec fn unicode_lowercase_of(c: char) -> Seq<char>;

/// A text in lower case.
pub open spec fn lowercase(s: Seq<char>) -> Seq<char> {
    if utf8::is_ascii_chars(s) {
        s.map_values(|c: char| text::ascii_lower(c))
    } else {
        unicode_lowercase(s)
    }
}

/// A character in lower case, which may be more than one character.
pub open spec fn lowercase_of(c: char) -> Seq<char> {
    if c <= '\u{7f}' {
        seq![text::ascii_lower(c)]
    } else {
        unicode_lowercase_of(c)
    }
}

/// Calls `str::to_lowercase`. ASCII text comes out with its letters in lower
/// case and is otherwise unchanged; of any other text only that the result is
/// a function of it is said.
#[verifier::external_body]
fn lower_text(s: &str) -> (lower: String)
    ensures
        utf8::is_ascii_chars(s@) ==> lower@ == s@.map_values(|c: char| text::ascii_lower(c)),
        !utf8::is_ascii_chars(s@) ==> lower@ == unicode_lowercase(s@),
{
    s.to_lowercase()
}

/// Calls `char::to_lowercase`, which gives one or more characters. An ASCII
/// character comes out in lower case; of any other character only that the
/// result is a function of it is said.
#[verifier::external_body]
fn lower_char(c: char) -> (lower: Vec<char>)
    ensures
        lower@.len() > 0,
        c <= '\u{7f}' ==> lower@ == seq![text::ascii_lower(c)],
        c > '\u{7f}' ==> lower@ == unicode_lowercase_of(c),
{
    c.to_lowercase().collect()
}

/// Whether `needle` stands in `haystack` at position `at`.
pub open spec fn occurs_at(haystack: Seq<u8>, needle: Seq<u8>, at: int) -> bool {
    &&& 0 <= at
    &&& at + needle.len() <= haystack.len()
    &&& haystack.subrange(at, at + needle.len()) == needle
}

/// The first occurrence at `from` or behind it.
pub open spec fn next_occurrence(haystack: Seq<u8>, needle: Seq<u8>, from: int) -> Option<int>
    decreases haystack.len() + 1 - from,
{
    if from + needle.len() > haystack.len() {
        None
    } else if occurs_at(haystack, needle, from) {
        Some(from)
    } else {
        next_occurrence(haystack, needle, from + 1)
    }
}

/// The occurrences from `from` on, each the first that does not overlap the one
/// before.
pub open spec fn occurrences(haystack: Seq<u8>, needle: Seq<u8>, from: int) -> Seq<int>
    decreases haystack.len() + 1 - from,
{
    match next_occurrence(haystack, needle, from) {
        Some(at) => if from <= at && needle.len() > 0 && at + needle.len() <= haystack.len() {
            seq![at] + occurrences(haystack, needle, at + needle.len())
        } else {
            Seq::empty()
        },
        None => Seq::empty(),
    }
}

/// Positions as mathematical integers.
pub open spec fn positions(list: Seq<usize>) -> Seq<int> {
    list.map_values(|p: usize| p as int)
}

proof fn lemma_next_occurrence(haystack: Seq<u8>, needle: Seq<u8>, from: int)
    requires
        0 <= from,
    ensures
        match next_occurrence(haystack, needle, from) {
            Some(at) => {
                &&& from <= at
                &&& occurs_at(haystack, needle, at)
                &&& forall|i: int| from <= i < at ==> !occurs_at(haystack, needle, i)
            },
            None => forall|i: int| from <= i ==> !occurs_at(haystack, needle, i),
        },
    decreases haystack.len() + 1 - from,
{
    if from + needle.len() <= haystack.len() && !occurs_at(haystack, needle, from) {
        lemma_next_occurrence(haystack, needle, from + 1);
    }
}

pub proof fn lemma_next_occurrence_is(haystack: Seq<u8>, needle: Seq<u8>, from: int, at: int)
    requires
        0 <= from <= at,
        forall|i: int| from <= i < at ==> !occurs_at(haystack, needle, i),
        occurs_at(haystack, needle, at) || at + needle.len() > haystack.len(),
    ensures
        next_occurrence(haystack, needle, from) == (if occurs_at(haystack, needle, at) {
            Some(at)
        } else {
            None
        }),
    decreases at - from,
{
    if from < at {
        if from + needle.len() <= haystack.len() {
            assert(!occurs_at(haystack, needle, from));
            lemma_next_occurrence_is(haystack, needle, from + 1, at);
        }
    }
}

/// Whether two occurrences share a position.
pub open spec fn overlaps(a: int, b: int, width: nat) -> bool {
    a < b + width && b < a + width
}

/// Whether a position lies in the occurrence that starts at `start`.
pub open spec fn lies_within(at: int, start: int, width: nat) -> bool {
    start <= at < start + width
}

/// Each position in the list is an occurrence, and none overlaps another.
pub proof fn law_occurrences(haystack: Seq<u8>, needle: Seq<u8>, from: int)
    requires
        0 <= from,
        needle.len() > 0,
    ensures
        forall|i: int|
            0 <= i < occurrences(haystack, needle, from).len() ==> from <= #[trigger] occurrences(
                haystack,
                needle,
                from,
            )[i] && occurs_at(haystack, needle, occurrences(haystack, needle, from)[i]),
        forall|i: int, j: int|
            0 <= i < j < occurrences(haystack, needle, from).len() ==> #[trigger] occurrences(
                haystack,
                needle,
                from,
            )[i] + needle.len() <= #[trigger] occurrences(haystack, needle, from)[j],
    decreases haystack.len() + 1 - from,
{
    lemma_next_occurrence(haystack, needle, from);
    if let Some(first) = next_occurrence(haystack, needle, from) {
        let rest = occurrences(haystack, needle, first + needle.len());
        let all = occurrences(haystack, needle, from);
        law_occurrences(haystack, needle, first + needle.len());
        assert(all == seq![first] + rest);
        assert forall|i: int| 0 <= i < all.len() implies from <= #[trigger] all[i] && occurs_at(
            haystack,
            needle,
            all[i],
        ) by {
            if i > 0 {
                assert(all[i] == rest[i - 1]);
            }
        }
        assert forall|i: int, j: int| 0 <= i < j < all.len() implies #[trigger] all[i]
            + needle.len() <= #[trigger] all[j] by {
            assert(all[j] == rest[j - 1]);
            if i > 0 {
                assert(all[i] == rest[i - 1]);
            }
        }
    }
}

/// No occurrence is missed: each one from `from` on is in the list, or starts
/// within one in the list that comes before it. So it overlaps one in the list.
pub proof fn law_no_occurrence_is_missed(haystack: Seq<u8>, needle: Seq<u8>, from: int, at: int)
    requires
        0 <= from <= at,
        needle.len() > 0,
        occurs_at(haystack, needle, at),
    ensures
        exists|i: int|
            0 <= i < occurrences(haystack, needle, from).len() && lies_within(
                at,
                #[trigger] occurrences(haystack, needle, from)[i],
                needle.len(),
            ),
        exists|i: int|
            0 <= i < occurrences(haystack, needle, from).len() && overlaps(
                #[trigger] occurrences(haystack, needle, from)[i],
                at,
                needle.len(),
            ),
    decreases haystack.len() + 1 - from,
{
    lemma_next_occurrence(haystack, needle, from);
    let all = occurrences(haystack, needle, from);
    let first = next_occurrence(haystack, needle, from)->0;
    let rest = occurrences(haystack, needle, first + needle.len());
    assert(all == seq![first] + rest);
    if at < first + needle.len() {
        assert(lies_within(at, all[0], needle.len()));
    } else {
        law_no_occurrence_is_missed(haystack, needle, first + needle.len(), at);
        let i = choose|i: int|
            0 <= i < rest.len() && lies_within(at, #[trigger] rest[i], needle.len());
        assert(all[i + 1] == rest[i]);
    }
}

/// The first occurrence from `from` on is one, none comes before it, and where
/// none is found there is none.
pub proof fn law_first_occurrence(haystack: Seq<u8>, needle: Seq<u8>, from: int, at: int)
    requires
        0 <= from <= at,
        occurs_at(haystack, needle, at),
    ensures
        next_occurrence(haystack, needle, from) is Some,
        from <= next_occurrence(haystack, needle, from)->0 <= at,
        occurs_at(haystack, needle, next_occurrence(haystack, needle, from)->0),
{
    lemma_next_occurrence(haystack, needle, from);
}

/// An occurrence of a text in a text starts at a character boundary.
pub proof fn law_occurrence_on_boundary(haystack: Seq<char>, needle: Seq<char>, at: int)
    requires
        needle.len() > 0,
        occurs_at(utf8::encode_utf8(haystack), utf8::encode_utf8(needle), at),
    ensures
        utf8::is_char_boundary(utf8::encode_utf8(haystack), at),
{
    let h = utf8::encode_utf8(haystack);
    let n = utf8::encode_utf8(needle);
    utf8::encode_utf8_valid_utf8(haystack);
    utf8::encode_utf8_valid_utf8(needle);
    utf8::encode_utf8_first_scalar(needle);
    assert(n.len() > 0);
    utf8::is_char_boundary_iff_not_is_continuation_byte(n, 0);
    assert(h[at] == h.subrange(at, at + n.len())[0]);
    utf8::is_char_boundary_iff_not_is_continuation_byte(h, at);
}

/// Finds the first occurrence at `from` or behind it; see [`next_occurrence`].
pub fn find_next(haystack: &[u8], needle: &[u8], from: usize) -> (found: Option<usize>)
    requires
        from <= haystack@.len(),
    ensures
        match found {
            Some(at) => next_occurrence(haystack@, needle@, from as int) == Some(at as int),
            None => next_occurrence(haystack@, needle@, from as int) is None,
        },
        found is Some ==> from <= found->0 && found->0 + needle@.len() <= haystack@.len(),
{
    let size = haystack.len();
    let width = needle.len();
    let mut i: usize = from;
    while i <= size && width <= size - i
        invariant
            from <= i <= size + 1,
            size == haystack@.len(),
            width == needle@.len(),
            forall|k: int| from <= k < i ==> !occurs_at(haystack@, needle@, k),
        decreases size + 1 - i,
    {
        if text::same_bytes(slice_subrange(haystack, i, i + width), needle) {
            proof {
                lemma_next_occurrence_is(haystack@, needle@, from as int, i as int);
            }
            return Some(i);
        }
        if i == size {
            proof {
                lemma_next_occurrence_is(haystack@, needle@, from as int, i + 1);
            }
            return None;
        }
        i += 1;
    }
    proof {
        lemma_next_occurrence_is(haystack@, needle@, from as int, i as int);
    }
    None
}

/// The positions at which `needle` occurs in `haystack`, counted in bytes; an
/// occurrence does not overlap the one before. See [`occurrences`].
pub fn find_all(haystack: &str, needle: &str) -> (found: Vec<usize>)
    requires
        needle@.len() > 0,
    ensures
        positions(found@) == occurrences(
            utf8::encode_utf8(haystack@),
            utf8::encode_utf8(needle@),
            0,
        ),
{
    let h = haystack.as_bytes();
    let n = needle.as_bytes();
    proof {
        utf8::encode_utf8_first_scalar(needle@);
    }
    let ghost all = occurrences(h@, n@, 0);
    let size = h.len();
    let width = n.len();
    let mut found: Vec<usize> = Vec::new();
    let mut offset: usize = 0;
    assert(positions(found@) + all =~= all);
    loop
        invariant
            0 < n@.len(),
            size == h@.len(),
            width == n@.len(),
            offset <= size,
            all == occurrences(h@, n@, 0),
            all == positions(found@) + occurrences(h@, n@, offset as int),
            h@ == utf8::encode_utf8(haystack@),
            n@ == utf8::encode_utf8(needle@),
        decreases size - offset,
    {
        match find_next(h, n, offset) {
            Some(position) => {
                let ghost before = found@;
                found.push(position);
                assert(positions(found@) =~= positions(before).push(position as int));
                offset = position + width;
                assert(all =~= positions(found@) + occurrences(h@, n@, offset as int));
            },
            None => {
                assert(all =~= positions(found@));
                return found;
            },
        }
    }
}

pub proof fn lemma_encode_concat(a: Seq<char>, b: Seq<char>)
    ensures
        utf8::encode_utf8(a + b) == utf8::encode_utf8(a) + utf8::encode_utf8(b),
    decreases a.len(),
{
    if a.len() == 0 {
        assert(a + b =~= b);
        assert(utf8::encode_utf8(a) + utf8::encode_utf8(b) =~= utf8::encode_utf8(b));
    } else {
        assert((a + b).drop_first() =~= a.drop_first() + b);
        lemma_encode_concat(a.drop_first(), b);
        assert(utf8::encode_utf8(a + b) =~= utf8::encode_utf8(a) + utf8::encode_utf8(b));
    }
}

/// The bytes of the first `k` characters end at a character boundary.
proof fn lemma_prefix_bytes(s: Seq<char>, k: int)
    requires
        0 <= k <= s.len(),
    ensures
        utf8::encode_utf8(s.take(k)).len() <= utf8::encode_utf8(s).len(),
        utf8::encode_utf8(s).subrange(0, utf8::encode_utf8(s.take(k)).len() as int)
            == utf8::encode_utf8(s.take(k)),
        utf8::is_char_boundary(utf8::encode_utf8(s), utf8::encode_utf8(s.take(k)).len() as int),
    decreases k,
{
    let whole = utf8::encode_utf8(s);
    let part = utf8::encode_utf8(s.take(k));
    assert(s =~= s.take(k) + s.skip(k));
    lemma_encode_concat(s.take(k), s.skip(k));
    assert(whole.subrange(0, part.len() as int) =~= part);
    utf8::encode_utf8_valid_utf8(s);
    if k == s.len() {
        assert(s.take(k) =~= s);
        utf8::is_char_boundary_start_end_of_seq(whole);
    } else {
        let rest = utf8::encode_utf8(s.skip(k));
        utf8::encode_utf8_valid_utf8(s.skip(k));
        utf8::encode_utf8_first_scalar(s.skip(k));
        utf8::is_char_boundary_iff_not_is_continuation_byte(rest, 0);
        assert(whole[part.len() as int] == rest[0]);
        utf8::is_char_boundary_iff_not_is_continuation_byte(whole, part.len() as int);
    }
}

/// The number of characters that end at or before a byte position of a text.
pub open spec fn chars_before(line: Seq<char>, byte_idx: int) -> nat {
    utf8::decode_utf8(utf8::encode_utf8(line).subrange(0, byte_idx)).len()
}

/// The column of a byte position in a line: one more than the number of
/// characters before it.
pub fn char_column(line: &str, byte_idx: usize) -> (column: usize)
    requires
        utf8::is_char_boundary(utf8::encode_utf8(line@), byte_idx as int),
        chars_before(line@, byte_idx as int) < usize::MAX,
    ensures
        column == chars_before(line@, byte_idx as int) + 1,
{
    let (before, _) = line.split_at(byte_idx);
    proof {
        utf8::encode_utf8_decode_utf8(before@);
    }
    before.unicode_len() + 1
}

/// The first column of a line is 1. From one character boundary to a later one,
/// the column grows by the number of characters between them, so by one at least.
pub proof fn law_columns_count_characters(line: Seq<char>, i: int, j: int)
    requires
        i <= j,
        utf8::is_char_boundary(utf8::encode_utf8(line), i),
        utf8::is_char_boundary(utf8::encode_utf8(line), j),
    ensures
        chars_before(line, 0) == 0,
        chars_before(line, j) == chars_before(line, i) + utf8::decode_utf8(
            utf8::encode_utf8(line).subrange(i, j),
        ).len(),
        i < j ==> chars_before(line, i) < chars_before(line, j),
        chars_before(line, utf8::encode_utf8(line).len() as int) == line.len(),
{
    let bytes = utf8::encode_utf8(line);
    utf8::encode_utf8_valid_utf8(line);
    lemma_boundary_range(bytes, i);
    lemma_boundary_range(bytes, j);
    let part = bytes.subrange(0, j);
    utf8::valid_utf8_split(bytes, j);
    if i < j {
        utf8::is_char_boundary_iff_not_is_continuation_byte(bytes, i);
        utf8::is_char_boundary_iff_not_is_continuation_byte(part, i);
        assert(part[i] == bytes[i]);
    } else {
        utf8::is_char_boundary_start_end_of_seq(part);
    }
    utf8::decode_utf8_split(part, i);
    utf8::valid_utf8_split(part, i);
    assert(part.subrange(0, i) =~= bytes.subrange(0, i));
    assert(part.subrange(i, part.len() as int) =~= bytes.subrange(i, j));
    assert(bytes.subrange(0, 0) =~= Seq::<u8>::empty());
    assert(utf8::decode_utf8(Seq::<u8>::empty()) =~= Seq::<char>::empty());
    assert(bytes.subrange(0, bytes.len() as int) =~= bytes);
    utf8::encode_utf8_decode_utf8(line);
}

proof fn lemma_boundary_range(bytes: Seq<u8>, at: int)
    requires
        utf8::valid_utf8(bytes),
        utf8::is_char_boundary(bytes, at),
    ensures
        0 <= at <= bytes.len(),
{
    reveal_with_fuel(utf8::is_char_boundary, 2);
}

/// The characters of a text in lower case, one by one.
pub open spec fn forms_of(s: Seq<char>) -> Seq<Seq<char>> {
    s.map_values(|c: char| lowercase_of(c))
}

/// The texts that a list of character vectors holds.
pub open spec fn form_texts(forms: Seq<Vec<char>>) -> Seq<Seq<char>> {
    forms.map_values(|f: Vec<char>| f@)
}

/// Whether no text in a list is empty.
pub open spec fn none_empty(forms: Seq<Seq<char>>) -> bool {
    forall|i: int| 0 <= i < forms.len() ==> (#[trigger] forms[i]).len() > 0
}

/// The number of bytes that a text takes.
pub open spec fn width(form: Seq<char>) -> int {
    utf8::encode_utf8(form).len() as int
}

/// Which of some texts, put one behind the other, covers the byte at `offset`.
pub open spec fn covering(forms: Seq<Seq<char>>, offset: int) -> int
    decreases forms.len(),
{
    if forms.len() == 0 || width(forms[0]) > offset {
        0
    } else {
        1 + covering(forms.drop_first(), offset - width(forms[0]))
    }
}

/// The position of the character of a text whose lower-case form covers the
/// byte at `offset` of the text in lower case.
pub open spec fn source_char(s: Seq<char>, offset: int) -> int {
    covering(forms_of(s), offset)
}

pub proof fn lemma_covering_range(forms: Seq<Seq<char>>, offset: int)
    ensures
        0 <= covering(forms, offset) <= forms.len(),
    decreases forms.len(),
{
    if forms.len() > 0 && width(forms[0]) <= offset {
        lemma_covering_range(forms.drop_first(), offset - width(forms[0]));
    }
}

/// The lower-case forms of the characters of a line.
fn lower_forms(line: &str) -> (forms: Vec<Vec<char>>)
    ensures
        form_texts(forms@) == forms_of(line@),
        none_empty(form_texts(forms@)),
{
    let chars = text::chars_of(line);
    let mut forms: Vec<Vec<char>> = Vec::new();
    let mut i: usize = 0;
    while i < chars.len()
        invariant
            chars@ == line@,
            i <= chars@.len(),
            form_texts(forms@) == forms_of(line@).take(i as int),
            none_empty(form_texts(forms@)),
        decreases chars@.len() - i,
    {
        let ghost before = forms@;
        let form = lower_char(chars[i]);
        assert(form@ == forms_of(line@)[i as int]);
        forms.push(form);
        assert(form_texts(forms@) =~= form_texts(before).push(form@));
        i += 1;
    }
    assert(forms_of(line@).take(i as int) =~= forms_of(line@));
    forms
}

/// The byte position in a line of the character whose lower-case form covers
/// the byte at `offset` of the line in lower case, given the lower-case forms of
/// its characters.
pub fn source_offset(line: &str, forms: &Vec<Vec<char>>, offset: usize) -> (at: usize)
    requires
        forms@.len() == line@.len(),
        none_empty(form_texts(forms@)),
    ensures
        at == utf8::encode_utf8(line@.take(covering(form_texts(forms@), offset as int))).len(),
        covering(form_texts(forms@), offset as int) <= offset,
{
    let chars = text::chars_of(line);
    let ghost all = form_texts(forms@);
    let mut k: usize = 0;
    let mut left: usize = offset;
    assert(all.skip(0) =~= all);
    proof {
        lemma_covering_range(all, offset as int);
    }
    let mut covered = false;
    while k < forms.len() && !covered
        invariant
            all == form_texts(forms@),
            none_empty(all),
            k <= forms@.len(),
            covered ==> covering(all.skip(k as int), left as int) == 0,
            k <= offset - left,
            left <= offset,
            covering(all, offset as int) == k + covering(all.skip(k as int), left as int),
        decreases forms@.len() - k,
            if covered {
                0int
            } else {
                1int
            },
    {
        let ghost rest = all.skip(k as int);
        let shown = text::string_of(forms[k].as_slice());
        let wide = shown.as_str().as_bytes().len();
        proof {
            assert(rest[0] == all[k as int]);
            assert(wide == width(rest[0]));
            utf8::encode_utf8_first_scalar(all[k as int]);
            assert(rest.drop_first() =~= all.skip(k + 1));
        }
        if wide > left {
            covered = true;
        } else {
            left = left - wide;
            k += 1;
        }
    }
    let before = text::string_of(slice_subrange(chars.as_slice(), 0, k));
    assert(before@ =~= line@.take(k as int));
    before.as_str().as_bytes().len()
}

/// One place where a keyword was found.
pub struct Match {
    pub path: Vec<u8>,
    pub line_number: usize,
    pub column: usize,
    pub line: String,
}

/// One place where a keyword was found, as mathematical values.
pub struct MatchView {
    pub path: Seq<u8>,
    pub line_number: int,
    pub column: int,
    pub line: Seq<char>,
}

impl View for Match {
    type V = MatchView;

    open spec fn view(&self) -> MatchView {
        MatchView {
            path: self.path@,
            line_number: self.line_number as int,
            column: self.column as int,
            line: self.line@,
        }
    }
}

/// The matches in a list.
pub open spec fn match_views(list: Seq<Match>) -> Seq<MatchView> {
    list.map_values(|m: Match| m@)
}

/// The matches in one line, given the line in lower case and the lower-case forms
/// of its characters. Lines and columns are counted from 1, and the column counts
/// the characters of the line itself.
pub open spec fn matches_in(
    path: Seq<u8>,
    line_number: int,
    line: Seq<char>,
    lower: Seq<char>,
    forms: Seq<Seq<char>>,
    needle: Seq<char>,
) -> Seq<MatchView> {
    occurrences(utf8::encode_utf8(lower), utf8::encode_utf8(needle), 0).map_values(
        |o: int| MatchView { path, line_number, column: covering(forms, o) + 1, line },
    )
}

/// The offsets at which a needle occurs in a line in lower case.
pub open spec fn line_offsets(line: Seq<char>, needle: Seq<char>) -> Seq<int> {
    occurrences(utf8::encode_utf8(lowercase(line)), utf8::encode_utf8(needle), 0)
}

/// The matches in one line.
pub open spec fn line_matches(
    path: Seq<u8>,
    line_number: int,
    line: Seq<char>,
    needle: Seq<char>,
) -> Seq<MatchView> {
    matches_in(path, line_number, line, lowercase(line), forms_of(line), needle)
}

/// The matches in the lines of one file, line by line.
pub open spec fn file_matches(
    path: Seq<u8>,
    lines: Seq<Seq<char>>,
    needle: Seq<char>,
) -> Seq<MatchView>
    decreases lines.len(),
{
    if lines.len() == 0 {
        Seq::empty()
    } else {
        file_matches(path, lines.drop_last(), needle) + line_matches(
            path,
            lines.len() as int,
            lines.last(),
            needle,
        )
    }
}

/// The matches in files, file by file.
pub open spec fn index_matches(
    files: Seq<(Seq<u8>, IndexedFile)>,
    needle: Seq<char>,
) -> Seq<MatchView>
    decreases files.len(),
{
    if files.len() == 0 {
        Seq::empty()
    } else {
        index_matches(files.drop_last(), needle) + file_matches(
            files.last().0,
            text::texts(files.last().1.lines@),
            needle,
        )
    }
}

/// The first `limit` items.
pub open spec fn at_most<T>(s: Seq<T>, limit: int) -> Seq<T> {
    if limit < s.len() {
        s.take(limit)
    } else {
        s
    }
}

/// The matches of a keyword, compared in lower case: the first `limit` of them,
/// and none for an empty keyword.
pub open spec fn search_results(
    files: Seq<(Seq<u8>, IndexedFile)>,
    keyword: Seq<char>,
    limit: int,
) -> Seq<MatchView> {
    let needle = lowercase(keyword);
    if needle.len() == 0 {
        Seq::empty()
    } else {
        at_most(index_matches(files, needle), limit)
    }
}

proof fn lemma_file_prefix(path: Seq<u8>, lines: Seq<Seq<char>>, needle: Seq<char>, n: int)
    requires
        0 <= n <= lines.len(),
    ensures
        file_matches(path, lines.take(n), needle).is_prefix_of(file_matches(path, lines, needle)),
    decreases lines.len() - n,
{
    if n < lines.len() {
        lemma_file_prefix(path, lines, needle, n + 1);
        assert(lines.take(n + 1).drop_last() =~= lines.take(n));
        let a = file_matches(path, lines.take(n), needle);
        let b = file_matches(path, lines.take(n + 1), needle);
        let c = file_matches(path, lines, needle);
        assert(a =~= b.subrange(0, a.len() as int));
        assert(a =~= c.subrange(0, a.len() as int));
    } else {
        assert(lines.take(n) =~= lines);
        let c = file_matches(path, lines, needle);
        assert(c =~= c.subrange(0, c.len() as int));
    }
}

proof fn lemma_index_prefix(files: Seq<(Seq<u8>, IndexedFile)>, needle: Seq<char>, n: int)
    requires
        0 <= n <= files.len(),
    ensures
        index_matches(files.take(n), needle).is_prefix_of(index_matches(files, needle)),
    decreases files.len() - n,
{
    if n < files.len() {
        lemma_index_prefix(files, needle, n + 1);
        assert(files.take(n + 1).drop_last() =~= files.take(n));
        let a = index_matches(files.take(n), needle);
        let b = index_matches(files.take(n + 1), needle);
        let c = index_matches(files, needle);
        assert(a =~= b.subrange(0, a.len() as int));
        assert(a =~= c.subrange(0, a.len() as int));
    } else {
        assert(files.take(n) =~= files);
        let c = index_matches(files, needle);
        assert(c =~= c.subrange(0, c.len() as int));
    }
}

/// Appends the matches in one line, as long as there are fewer than `limit`,
/// and says whether `limit` was reached. The line is given as it is and in lower
/// case, and its characters one by one in lower case. See [`matches_in`].
pub fn search_line(
    matches: &mut Vec<Match>,
    path: &[u8],
    line_number: usize,
    line: &String,
    lower: &str,
    forms: &Vec<Vec<char>>,
    needle: &str,
    limit: usize,
) -> (full: bool)
    requires
        needle@.len() > 0,
        forms@.len() == line@.len(),
        none_empty(form_texts(forms@)),
        old(matches)@.len() < limit,
    ensures
        match_views(final(matches)@) == at_most(
            match_views(old(matches)@) + matches_in(
                path@,
                line_number as int,
                line@,
                lower@,
                form_texts(forms@),
                needle@,
            ),
            limit as int,
        ),
        full == (final(matches)@.len() == limit),
{
    let offsets = find_all(lower, needle);
    let ghost start = match_views(matches@);
    let ghost shapes = form_texts(forms@);
    let ghost all = matches_in(path@, line_number as int, line@, lower@, shapes, needle@);
    let ghost hay = utf8::encode_utf8(lower@);
    let bound = lower.as_bytes().len();
    let mut i: usize = 0;
    assert(start + all.take(0) =~= start);
    assert(all.len() == offsets@.len());
    while i < offsets.len()
        invariant
            i <= offsets@.len(),
            start == match_views(old(matches)@),
            needle@.len() > 0,
            forms@.len() == line@.len(),
            shapes == form_texts(forms@),
            none_empty(shapes),
            hay == utf8::encode_utf8(lower@),
            bound == hay.len(),
            positions(offsets@) == occurrences(hay, utf8::encode_utf8(needle@), 0),
            all == matches_in(path@, line_number as int, line@, lower@, shapes, needle@),
            all.len() == offsets@.len(),
            match_views(matches@) == start + all.take(i as int),
            matches@.len() < limit,
        decreases offsets@.len() - i,
    {
        let offset = offsets[i];
        proof {
            assert(positions(offsets@)[i as int] == offset as int);
            law_occurrences(hay, utf8::encode_utf8(needle@), 0);
            utf8::encode_utf8_first_scalar(needle@);
            assert(occurs_at(hay, utf8::encode_utf8(needle@), offset as int));
            assert(offset < bound);
        }
        let at = source_offset(line.as_str(), forms, offset);
        let ghost k = covering(shapes, offset as int);
        proof {
            lemma_covering_range(shapes, offset as int);
            lemma_prefix_bytes(line@, k);
            utf8::encode_utf8_decode_utf8(line@.take(k));
        }
        let column = char_column(line.as_str(), at);
        let found = Match { path: slice_to_vec(path), line_number, column, line: line.clone() };
        assert(found@ == all[i as int]);
        let ghost before = matches@;
        matches.push(found);
        assert(match_views(matches@) =~= match_views(before).push(found@));
        assert(all.take(i + 1) =~= all.take(i as int).push(all[i as int]));
        assert(match_views(matches@) =~= start + all.take(i + 1));
        i += 1;
        if matches.len() >= limit {
            assert(at_most(start + all, limit as int) =~= match_views(matches@));
            return true;
        }
    }
    assert(all.take(i as int) =~= all);
    false
}

/// Appends the matches in one line, as long as there are fewer than `limit`,
/// and says whether `limit` was reached.
fn search_indexed_line(
    matches: &mut Vec<Match>,
    path: &[u8],
    line_number: usize,
    line: &String,
    needle: &str,
    limit: usize,
) -> (full: bool)
    requires
        needle@.len() > 0,
        old(matches)@.len() < limit,
    ensures
        match_views(final(matches)@) == at_most(
            match_views(old(matches)@) + line_matches(path@, line_number as int, line@, needle@),
            limit as int,
        ),
        full == (final(matches)@.len() == limit),
{
    let lower = lower_text(line.as_str());
    if find_next(lower.as_str().as_bytes(), needle.as_bytes(), 0).is_none() {
        assert(match_views(matches@) + line_matches(path@, line_number as int, line@, needle@)
            =~= match_views(matches@));
        return false;
    }
    let forms = lower_forms(line.as_str());
    assert(form_texts(forms@).len() == line@.len());
    search_line(matches, path, line_number, line, lower.as_str(), &forms, needle, limit)
}

/// Finds a keyword in the index, without regard to case: file by file in the
/// order of their paths, line by line, and from left to right. At most `limit`
/// matches are given. See [`search_results`].
pub fn search_index(index: &Index, keyword: &str, limit: usize) -> (matches: Vec<Match>)
    ensures
        match_views(matches@) == search_results(index.files@, keyword@, limit as int),
{
    let needle = lower_text(keyword);
    let mut matches: Vec<Match> = Vec::new();
    let ghost files = index.files@;
    assert(match_views(matches@) =~= Seq::<MatchView>::empty());
    if needle.as_str().is_empty() || limit == 0 {
        assert(index_matches(files, needle@).take(0) =~= Seq::<MatchView>::empty());
        return matches;
    }
    let ghost all = index_matches(files, needle@);
    let n = index.files.len();
    let mut f: usize = 0;
    while f < n
        invariant
            files == index.files@,
            n == files.len(),
            f <= n,
            needle@ == lowercase(keyword@),
            needle@.len() > 0,
            all == index_matches(files, needle@),
            match_views(matches@) == index_matches(files.take(f as int), needle@),
            matches@.len() < limit,
        decreases n - f,
    {
        let entry = index.files.entry(f);
        let ghost done = index_matches(files.take(f as int), needle@);
        let ghost lines = text::texts(entry.value.lines@);
        proof {
            assert(files[f as int] == (entry.path@, entry.value));
            assert(files.take(f + 1).drop_last() =~= files.take(f as int));
            lemma_index_prefix(files, needle@, f + 1);
        }
        let ghost file_all = file_matches(entry.path@, lines, needle@);
        let mut l: usize = 0;
        assert(done + file_matches(entry.path@, lines.take(0), needle@) =~= done);
        while l < entry.value.lines.len()
            invariant
                l <= entry.value.lines@.len(),
                lines == text::texts(entry.value.lines@),
                needle@ == lowercase(keyword@),
                needle@.len() > 0,
                all == index_matches(index.files@, needle@),
                file_all == file_matches(entry.path@, lines, needle@),
                (done + file_all).is_prefix_of(all),
                match_views(matches@) == done + file_matches(
                    entry.path@,
                    lines.take(l as int),
                    needle@,
                ),
                matches@.len() < limit,
            decreases entry.value.lines@.len() - l,
        {
            let line = &entry.value.lines[l];
            let ghost before = match_views(matches@);
            proof {
                assert(lines[l as int] == line@);
                assert(lines.take(l + 1).drop_last() =~= lines.take(l as int));
                assert(lines.take(l + 1).len() == l + 1);
                lemma_file_prefix(entry.path@, lines, needle@, l + 1);
            }
            let full = search_indexed_line(
                &mut matches,
                entry.path.as_slice(),
                l + 1,
                line,
                needle.as_str(),
                limit,
            );
            let ghost step = line_matches(entry.path@, l + 1, line@, needle@);
            let ghost now = file_matches(entry.path@, lines.take(l + 1), needle@);
            assert(done + now =~= before + step);
            if full {
                proof {
                    let so_far = done + now;
                    assert(now =~= file_all.subrange(0, now.len() as int));
                    assert(so_far =~= (done + file_all).subrange(0, so_far.len() as int));
                    assert(so_far =~= all.subrange(0, so_far.len() as int));
                    assert(at_most(so_far, limit as int) =~= all.take(limit as int));
                    assert(at_most(all, limit as int) =~= all.take(limit as int));
                }
                return matches;
            }
            assert(match_views(matches@) =~= done + now);
            l += 1;
        }
        assert(lines.take(l as int) =~= lines);
        f += 1;
    }
    assert(files.take(f as int) =~= files);
    matches
}

} // verus!
