//! Text as sequences of characters: comparing, trimming and splitting.
use vstd::prelude::*;
use vstd::slice::slice_subrange;

verus! {

/// `String::push` appends one character.
pub assume_specification[ String::push ](s: &mut String, c: char)
    ensures
        final(s)@ == old(s)@.push(c),
;

/// The texts that a list of strings holds.
pub open spec fn texts(list: Seq<String>) -> Seq<Seq<char>> {
    list.map_values(|s: String| s@)
}

/// The text that an optional string holds.
pub open spec fn optional_text(value: Option<String>) -> Option<Seq<char>> {
    match value {
        Some(s) => Some(s@),
        None => None,
    }
}

/// Position of the first item equal to `x`, or the length when there is none.
pub open spec fn first_index<T>(s: Seq<T>, x: T) -> int
    decreases s.len(),
{
    if s.len() == 0 || s[0] == x {
        0
    } else {
        1 + first_index(s.drop_first(), x)
    }
}

/// Position of the last item equal to `x`, or -1 when there is none.
pub open spec fn last_index<T>(s: Seq<T>, x: T) -> int
    decreases s.len(),
{
    if s.len() == 0 || s.last() == x {
        s.len() - 1
    } else {
        last_index(s.drop_last(), x)
    }
}

/// What stands before and after the first `x`.
pub open spec fn split_once<T>(s: Seq<T>, x: T) -> Option<(Seq<T>, Seq<T>)> {
    let at = first_index(s, x);
    if at < s.len() {
        Some((s.take(at), s.skip(at + 1)))
    } else {
        None
    }
}

/// What stands before and after the last `x`.
pub open spec fn rsplit_once<T>(s: Seq<T>, x: T) -> Option<(Seq<T>, Seq<T>)> {
    let at = last_index(s, x);
    if 0 <= at {
        Some((s.take(at), s.skip(at + 1)))
    } else {
        None
    }
}

/// The pieces between the occurrences of `x`; always at least one.
pub open spec fn split<T>(s: Seq<T>, x: T) -> Seq<Seq<T>>
    decreases s.len(),
{
    let at = first_index(s, x);
    if 0 <= at < s.len() {
        seq![s.take(at)] + split(s.skip(at + 1), x)
    } else {
        seq![s]
    }
}

/// The characters with the Unicode property `White_Space`.
pub open spec fn is_space(c: char) -> bool {
    ||| '\u{9}' <= c <= '\u{d}'
    ||| c == '\u{20}'
    ||| c == '\u{85}'
    ||| c == '\u{a0}'
    ||| c == '\u{1680}'
    ||| '\u{2000}' <= c <= '\u{200a}'
    ||| c == '\u{2028}'
    ||| c == '\u{2029}'
    ||| c == '\u{202f}'
    ||| c == '\u{205f}'
    ||| c == '\u{3000}'
}

/// The text without the white space at its start.
pub open spec fn trim_start(s: Seq<char>) -> Seq<char>
    decreases s.len(),
{
    if s.len() > 0 && is_space(s[0]) {
        trim_start(s.drop_first())
    } else {
        s
    }
}

/// The text without the white space at its end.
pub open spec fn trim_end(s: Seq<char>) -> Seq<char>
    decreases s.len(),
{
    if s.len() > 0 && is_space(s.last()) {
        trim_end(s.drop_last())
    } else {
        s
    }
}

/// The text without the white space at its two ends.
pub open spec fn trim(s: Seq<char>) -> Seq<char> {
    trim_end(trim_start(s))
}

/// The text without the carriage returns and line feeds at its end.
pub open spec fn trim_line_end(s: Seq<char>) -> Seq<char>
    decreases s.len(),
{
    if s.len() > 0 && (s.last() == '\r' || s.last() == '\n') {
        trim_line_end(s.drop_last())
    } else {
        s
    }
}

/// The length of the word that a text starts with.
pub open spec fn word_length(s: Seq<char>) -> int
    decreases s.len(),
{
    if s.len() == 0 || is_space(s[0]) {
        0
    } else {
        1 + word_length(s.drop_first())
    }
}

/// The words of a text: its longest pieces without white space.
pub open spec fn words(s: Seq<char>) -> Seq<Seq<char>>
    decreases s.len(),
{
    if s.len() == 0 {
        Seq::empty()
    } else if is_space(s[0]) {
        words(s.drop_first())
    } else {
        let n = word_length(s);
        if 0 < n <= s.len() {
            seq![s.take(n)] + words(s.skip(n))
        } else {
            Seq::empty()
        }
    }
}

/// A line without the carriage return that stands before its line feed.
pub open spec fn strip_return(s: Seq<char>) -> Seq<char> {
    if s.len() > 0 && s.last() == '\r' {
        s.drop_last()
    } else {
        s
    }
}

/// The lines of a text. A line ends in a line feed or a carriage return and a
/// line feed, neither of which belongs to it; the last line may end without.
pub open spec fn lines(s: Seq<char>) -> Seq<Seq<char>>
    decreases s.len(),
{
    if s.len() == 0 {
        Seq::empty()
    } else {
        let at = first_index(s, '\n');
        if 0 <= at < s.len() {
            seq![strip_return(s.take(at))] + lines(s.skip(at + 1))
        } else {
            seq![s]
        }
    }
}

/// The lower-case form of an ASCII letter; every other character as it is.
pub open spec fn ascii_lower(c: char) -> char {
    if 'A' <= c <= 'Z' {
        ((c as u8 + 32) as u8) as char
    } else {
        c
    }
}

/// Whether two texts are the same but for the case of their ASCII letters.
pub open spec fn same_ignoring_case(a: Seq<char>, b: Seq<char>) -> bool {
    &&& a.len() == b.len()
    &&& forall|i: int| 0 <= i < a.len() ==> ascii_lower(#[trigger] a[i]) == ascii_lower(b[i])
}

pub proof fn lemma_first_index<T>(s: Seq<T>, x: T)
    ensures
        0 <= first_index(s, x) <= s.len(),
        forall|i: int| 0 <= i < first_index(s, x) ==> s[i] != x,
        first_index(s, x) < s.len() ==> s[first_index(s, x)] == x,
    decreases s.len(),
{
    if s.len() > 0 && s[0] != x {
        let rest = s.drop_first();
        lemma_first_index(rest, x);
        assert forall|i: int| 0 <= i < first_index(s, x) implies s[i] != x by {
            if i > 0 {
                assert(s[i] == rest[i - 1]);
            }
        }
    }
}

pub proof fn lemma_first_index_is<T>(s: Seq<T>, x: T, at: int)
    requires
        0 <= at <= s.len(),
        forall|i: int| 0 <= i < at ==> s[i] != x,
        at < s.len() ==> s[at] == x,
    ensures
        first_index(s, x) == at,
{
    lemma_first_index(s, x);
    let found = first_index(s, x);
    if found < at {
        assert(s[found] != x);
    }
}

/// A text is split at its first `x`, which stands behind a part without `x`.
pub proof fn lemma_split_once_is<T>(before: Seq<T>, x: T, after: Seq<T>)
    requires
        !before.contains(x),
    ensures
        split_once(before + seq![x] + after, x) == Some((before, after)),
{
    let s = before + seq![x] + after;
    assert forall|i: int| 0 <= i < before.len() implies s[i] != x by {
        assert(before.contains(before[i]));
    }
    lemma_first_index_is(s, x, before.len() as int);
    assert(s.take(before.len() as int) =~= before);
    assert(s.skip(before.len() as int + 1) =~= after);
}

/// A text is split at its last `x`, which stands before a part without `x`.
pub proof fn lemma_rsplit_once_is<T>(before: Seq<T>, x: T, after: Seq<T>)
    requires
        !after.contains(x),
    ensures
        rsplit_once(before + seq![x] + after, x) == Some((before, after)),
{
    let s = before + seq![x] + after;
    let at = before.len() as int;
    assert forall|i: int| at < i < s.len() implies s[i] != x by {
        assert(s[i] == after[i - at - 1]);
        assert(after.contains(after[i - at - 1]));
    }
    lemma_last_index_is(s, x, at);
    assert(s.take(at) =~= before);
    assert(s.skip(at + 1) =~= after);
}

/// A text without `x` is not split.
pub proof fn lemma_split_once_none<T>(s: Seq<T>, x: T)
    requires
        !s.contains(x),
    ensures
        split_once(s, x) is None,
        rsplit_once(s, x) is None,
{
    lemma_first_index(s, x);
    lemma_last_index(s, x);
}

pub proof fn lemma_last_index<T>(s: Seq<T>, x: T)
    ensures
        -1 <= last_index(s, x) < s.len(),
        forall|i: int| last_index(s, x) < i < s.len() ==> s[i] != x,
        0 <= last_index(s, x) ==> s[last_index(s, x)] == x,
    decreases s.len(),
{
    if s.len() > 0 && s.last() != x {
        let rest = s.drop_last();
        lemma_last_index(rest, x);
        assert forall|i: int| last_index(s, x) < i < s.len() implies s[i] != x by {
            if i < s.len() - 1 {
                assert(s[i] == rest[i]);
            }
        }
    }
}

pub proof fn lemma_last_index_is<T>(s: Seq<T>, x: T, at: int)
    requires
        -1 <= at < s.len(),
        forall|i: int| at < i < s.len() ==> s[i] != x,
        0 <= at ==> s[at] == x,
    ensures
        last_index(s, x) == at,
{
    lemma_last_index(s, x);
    let found = last_index(s, x);
    if at < found {
        assert(s[found] != x);
    }
}

/// The characters of a string slice, in order.
pub fn chars_of(s: &str) -> (v: Vec<char>)
    ensures
        v@ == s@,
{
    let mut v: Vec<char> = Vec::new();
    for c in it: s.chars()
        invariant
            v@ == it.seq().take(it.index()),
    {
        v.push(c);
    }
    v
}

/// The string made of the given characters.
pub fn string_of(chars: &[char]) -> (s: String)
    ensures
        s@ == chars@,
{
    let mut s = String::new();
    let mut i: usize = 0;
    while i < chars.len()
        invariant
            i <= chars@.len(),
            s@ == chars@.take(i as int),
        decreases chars@.len() - i,
    {
        s.push(chars[i]);
        i += 1;
    }
    s
}

/// Whether two string slices hold the same text.
pub fn same_text(a: &str, b: &str) -> (same: bool)
    ensures
        same == (a@ == b@),
{
    let x = a.as_bytes();
    let y = b.as_bytes();
    proof {
        vstd::utf8::encode_utf8_decode_utf8(a@);
        vstd::utf8::encode_utf8_decode_utf8(b@);
    }
    same_bytes(x, y)
}

/// Whether two byte slices hold the same bytes.
pub fn same_bytes(x: &[u8], y: &[u8]) -> (same: bool)
    ensures
        same == (x@ == y@),
{
    if x.len() != y.len() {
        return false;
    }
    let mut i: usize = 0;
    while i < x.len()
        invariant
            x@.len() == y@.len(),
            i <= x@.len(),
            forall|j: int| 0 <= j < i ==> x@[j] == y@[j],
        decreases x@.len() - i,
    {
        if x[i] != y[i] {
            return false;
        }
        i += 1;
    }
    assert(x@ =~= y@);
    true
}

/// Whether a text starts with `prefix`.
pub fn starts_with(s: &[char], prefix: &str) -> (yes: bool)
    ensures
        yes == prefix@.is_prefix_of(s@),
{
    let p = chars_of(prefix);
    if p.len() > s.len() {
        return false;
    }
    let mut i: usize = 0;
    while i < p.len()
        invariant
            p@ == prefix@,
            p@.len() <= s@.len(),
            i <= p@.len(),
            forall|j: int| 0 <= j < i ==> p@[j] == s@[j],
        decreases p@.len() - i,
    {
        if p[i] != s[i] {
            assert(s@.subrange(0, prefix@.len() as int)[i as int] == s@[i as int]);
            return false;
        }
        i += 1;
    }
    assert(prefix@ =~= s@.subrange(0, prefix@.len() as int));
    true
}

/// Finds the first `c`; see [`first_index`].
pub fn find_char(s: &[char], c: char) -> (at: usize)
    ensures
        at == first_index(s@, c),
        at <= s@.len(),
{
    let mut i: usize = 0;
    while i < s.len() && s[i] != c
        invariant
            i <= s@.len(),
            forall|j: int| 0 <= j < i ==> s@[j] != c,
        decreases s@.len() - i,
    {
        i += 1;
    }
    proof {
        lemma_first_index_is(s@, c, i as int);
    }
    i
}

/// Finds the last `c`.
pub fn find_last_char(s: &[char], c: char) -> (at: Option<usize>)
    ensures
        match at {
            Some(i) => i == last_index(s@, c) && i < s@.len(),
            None => last_index(s@, c) == -1,
        },
{
    let mut i: usize = s.len();
    while i > 0
        invariant
            i <= s@.len(),
            forall|j: int| i <= j < s@.len() ==> s@[j] != c,
        decreases i,
    {
        if s[i - 1] == c {
            proof {
                lemma_last_index_is(s@, c, i - 1);
            }
            return Some(i - 1);
        }
        i -= 1;
    }
    proof {
        lemma_last_index_is(s@, c, -1);
    }
    None
}

/// The text before and after the first `c`.
pub fn split_at_char<'a>(s: &'a [char], c: char) -> (parts: Option<(&'a [char], &'a [char])>)
    ensures
        match parts {
            Some(p) => split_once(s@, c) == Some((p.0@, p.1@)),
            None => split_once(s@, c) is None,
        },
{
    let at = find_char(s, c);
    if at < s.len() {
        let before = slice_subrange(s, 0, at);
        let after = slice_subrange(s, at + 1, s.len());
        assert(before@ =~= s@.take(at as int));
        assert(after@ =~= s@.skip(at + 1));
        Some((before, after))
    } else {
        None
    }
}

/// The text before and after the last `c`.
pub fn split_at_last_char<'a>(s: &'a [char], c: char) -> (parts: Option<
    (&'a [char], &'a [char]),
>)
    ensures
        match parts {
            Some(p) => rsplit_once(s@, c) == Some((p.0@, p.1@)),
            None => rsplit_once(s@, c) is None,
        },
{
    let n = s.len();
    match find_last_char(s, c) {
        Some(at) => {
            let before = slice_subrange(s, 0, at);
            let after = slice_subrange(s, at + 1, n);
            assert(before@ =~= s@.take(at as int));
            assert(after@ =~= s@.skip(at + 1));
            Some((before, after))
        },
        None => None,
    }
}

/// Whether a character has the Unicode property `White_Space`.
pub fn is_space_char(c: char) -> (yes: bool)
    ensures
        yes == is_space(c),
{
    ('\u{9}' <= c && c <= '\u{d}') || c == '\u{20}' || c == '\u{85}' || c == '\u{a0}' || c
        == '\u{1680}' || ('\u{2000}' <= c && c <= '\u{200a}') || c == '\u{2028}' || c == '\u{2029}'
        || c == '\u{202f}' || c == '\u{205f}' || c == '\u{3000}'
}

/// Removes the white space at the two ends of a text.
pub fn trimmed<'a>(s: &'a [char]) -> (t: &'a [char])
    ensures
        t@ == trim(s@),
{
    let mut from: usize = 0;
    assert(s@.skip(0) =~= s@);
    while from < s.len() && is_space_char(s[from])
        invariant
            from <= s@.len(),
            trim_start(s@) == trim_start(s@.skip(from as int)),
        decreases s@.len() - from,
    {
        assert(s@.skip(from as int).drop_first() =~= s@.skip(from + 1));
        from += 1;
    }
    let mut to: usize = s.len();
    let ghost rest = s@.skip(from as int);
    assert(s@.subrange(from as int, to as int) =~= rest);
    assert(trim_start(rest) == rest);
    while from < to && is_space_char(s[to - 1])
        invariant
            from <= to <= s@.len(),
            trim(s@) == trim_end(s@.subrange(from as int, to as int)),
        decreases to - from,
    {
        assert(s@.subrange(from as int, to as int).drop_last() =~= s@.subrange(
            from as int,
            to - 1,
        ));
        to -= 1;
    }
    slice_subrange(s, from, to)
}

/// Removes the carriage returns and line feeds at the end of a text.
pub fn without_line_end<'a>(s: &'a [char]) -> (t: &'a [char])
    ensures
        t@ == trim_line_end(s@),
{
    let mut to: usize = s.len();
    assert(s@.subrange(0, to as int) =~= s@);
    while 0 < to && (s[to - 1] == '\r' || s[to - 1] == '\n')
        invariant
            to <= s@.len(),
            trim_line_end(s@) == trim_line_end(s@.subrange(0, to as int)),
        decreases to,
    {
        assert(s@.subrange(0, to as int).drop_last() =~= s@.subrange(0, to - 1));
        to -= 1;
    }
    slice_subrange(s, 0, to)
}

/// Splits a text into its words; see [`words`].
pub fn split_words(s: &[char]) -> (list: Vec<String>)
    ensures
        texts(list@) == words(s@),
{
    let mut list: Vec<String> = Vec::new();
    let mut i: usize = 0;
    assert(s@.skip(0) =~= s@);
    assert(texts(list@) + words(s@) =~= words(s@));
    while i < s.len()
        invariant
            i <= s@.len(),
            words(s@) == texts(list@) + words(s@.skip(i as int)),
        decreases s@.len() - i,
    {
        let ghost tail = s@.skip(i as int);
        if is_space_char(s[i]) {
            assert(tail.drop_first() =~= s@.skip(i + 1));
            i += 1;
        } else {
            let start = i;
            assert(tail.skip(0) =~= tail);
            while i < s.len() && !is_space_char(s[i])
                invariant
                    start <= i <= s@.len(),
                    tail == s@.skip(start as int),
                    word_length(tail) == (i - start) + word_length(s@.skip(i as int)),
                decreases s@.len() - i,
            {
                assert(s@.skip(i as int).drop_first() =~= s@.skip(i + 1));
                i += 1;
            }
            let ghost n = i - start;
            assert(word_length(s@.skip(i as int)) == 0);
            let word = string_of(slice_subrange(s, start, i));
            assert(word@ =~= tail.take(n));
            assert(tail.skip(n) =~= s@.skip(i as int));
            let ghost before = list@;
            list.push(word);
            assert(texts(list@) =~= texts(before) + seq![word@]);
        }
    }
    assert(texts(list@) + words(s@.skip(i as int)) =~= texts(list@));
    list
}

/// Splits a text at every `c`; see [`split`].
pub fn split_at_every(s: &[char], c: char) -> (list: Vec<String>)
    ensures
        texts(list@) == split(s@, c),
{
    let mut list: Vec<String> = Vec::new();
    let mut from: usize = 0;
    assert(s@.skip(0) =~= s@);
    assert(texts(list@) + split(s@, c) =~= split(s@, c));
    loop
        invariant
            from <= s@.len(),
            split(s@, c) == texts(list@) + split(s@.skip(from as int), c),
        decreases s@.len() - from,
    {
        let tail = slice_subrange(s, from, s.len());
        assert(tail@ =~= s@.skip(from as int));
        let at = find_char(tail, c);
        let ghost before = list@;
        if at < tail.len() {
            let piece = string_of(slice_subrange(tail, 0, at));
            assert(piece@ =~= tail@.take(at as int));
            assert(tail@.skip(at + 1) =~= s@.skip(from + at + 1));
            list.push(piece);
            assert(texts(list@) =~= texts(before) + seq![piece@]);
            from = from + at + 1;
        } else {
            let piece = string_of(tail);
            list.push(piece);
            assert(texts(list@) =~= texts(before) + seq![piece@]);
            return list;
        }
    }
}

/// Splits a text into its lines; see [`lines`].
pub fn split_lines(s: &[char]) -> (list: Vec<String>)
    ensures
        texts(list@) == lines(s@),
{
    let mut list: Vec<String> = Vec::new();
    let mut from: usize = 0;
    assert(s@.skip(0) =~= s@);
    assert(texts(list@) + lines(s@) =~= lines(s@));
    while from < s.len()
        invariant
            from <= s@.len(),
            lines(s@) == texts(list@) + lines(s@.skip(from as int)),
        decreases s@.len() - from,
    {
        let tail = slice_subrange(s, from, s.len());
        assert(tail@ =~= s@.skip(from as int));
        let at = find_char(tail, '\n');
        let ghost before = list@;
        if at < tail.len() {
            let end: usize = if at > 0 && tail[at - 1] == '\r' {
                at - 1
            } else {
                at
            };
            let line = string_of(slice_subrange(tail, 0, end));
            assert(line@ =~= strip_return(tail@.take(at as int)));
            assert(tail@.skip(at + 1) =~= s@.skip(from + at + 1));
            list.push(line);
            assert(texts(list@) =~= texts(before) + seq![line@]);
            from = from + at + 1;
        } else {
            let line = string_of(tail);
            list.push(line);
            assert(texts(list@) =~= texts(before) + seq![line@]);
            assert(lines(s@) =~= texts(list@));
            from = s.len();
            assert(s@.skip(from as int) =~= Seq::<char>::empty());
        }
    }
    assert(s@.skip(from as int) =~= Seq::<char>::empty());
    assert(texts(list@) + lines(s@.skip(from as int)) =~= texts(list@));
    list
}

/// Whether two texts are the same but for the case of their ASCII letters.
pub fn equal_ignoring_case(a: &[char], b: &[char]) -> (same: bool)
    ensures
        same == same_ignoring_case(a@, b@),
{
    if a.len() != b.len() {
        return false;
    }
    let mut i: usize = 0;
    while i < a.len()
        invariant
            a@.len() == b@.len(),
            i <= a@.len(),
            forall|j: int| 0 <= j < i ==> ascii_lower(a@[j]) == ascii_lower(b@[j]),
        decreases a@.len() - i,
    {
        if to_ascii_lower(a[i]) != to_ascii_lower(b[i]) {
            return false;
        }
        i += 1;
    }
    true
}

/// The lower-case form of an ASCII letter; every other character as it is.
pub fn to_ascii_lower(c: char) -> (lower: char)
    ensures
        lower == ascii_lower(c),
{
    if 'A' <= c && c <= 'Z' {
        (c as u8 + 32) as char
    } else {
        c
    }
}

} // verus!
