//! What holds of every text that is split, trimmed, counted, encoded or decoded.
use crate::encoding;
use crate::number;
use crate::text;
use crate::url;
use vstd::prelude::*;
use vstd::utf8;

verus! {

/// How often a character occurs in a text.
pub open spec fn count(s: Seq<char>, x: char) -> nat
    decreases s.len(),
{
    if s.len() == 0 {
        0
    } else {
        count(s.drop_last(), x) + if s.last() == x {
            1nat
        } else {
            0nat
        }
    }
}

proof fn lemma_count_sum(a: Seq<char>, b: Seq<char>, x: char)
    ensures
        count(a + b, x) == count(a, x) + count(b, x),
    decreases b.len(),
{
    if b.len() == 0 {
        assert(a + b =~= a);
    } else {
        assert((a + b).drop_last() =~= a + b.drop_last());
        lemma_count_sum(a, b.drop_last(), x);
    }
}

proof fn lemma_count_none(s: Seq<char>, x: char)
    requires
        !s.contains(x),
    ensures
        count(s, x) == 0,
    decreases s.len(),
{
    if s.len() > 0 {
        assert(s.contains(s.last()));
        assert forall|i: int| 0 <= i < s.drop_last().len() implies s.drop_last()[i] != x by {
            assert(s.contains(s[i]));
        }
        lemma_count_none(s.drop_last(), x);
    }
}

/// Text that ends in a line feed keeps its lines, whatever stands behind it, and
/// what stands behind it has the lines that it has alone.
pub proof fn law_lines_add_up(a: Seq<char>, b: Seq<char>)
    requires
        a.len() == 0 || a.last() == '\n',
    ensures
        text::lines(a + b) == text::lines(a) + text::lines(b),
    decreases a.len(),
{
    if a.len() == 0 {
        assert(a + b =~= b);
        assert(text::lines(a) + text::lines(b) =~= text::lines(b));
    } else {
        text::lemma_first_index(a, '\n');
        let at = text::first_index(a, '\n');
        if at == a.len() {
            assert(a[a.len() - 1] != '\n');
        }
        let s = a + b;
        text::lemma_first_index_is(s, '\n', at);
        assert(s.take(at) =~= a.take(at));
        assert(s.skip(at + 1) =~= a.skip(at + 1) + b);
        law_lines_add_up(a.skip(at + 1), b);
        assert(text::lines(s) =~= text::lines(a) + text::lines(b));
    }
}

/// A line is kept as it is, also where it is empty, without the line feed that
/// ends it and without a carriage return before that.
pub proof fn law_line_is_kept(line: Seq<char>)
    requires
        !line.contains('\n'),
    ensures
        line.len() == 0 ==> text::lines(line) == Seq::<Seq<char>>::empty(),
        line.len() > 0 ==> text::lines(line) == seq![line],
        line.len() == 0 || line.last() != '\r' ==> text::lines(line + seq!['\n']) == seq![line],
        text::lines(line + seq!['\r', '\n']) == seq![line],
{
    let ended = line + seq!['\n'];
    let returned = line + seq!['\r', '\n'];
    let n = line.len() as int;
    text::lemma_first_index(line, '\n');
    assert forall|i: int| 0 <= i < n implies line[i] != '\n' by {
        assert(line.contains(line[i]));
    }
    text::lemma_first_index_is(ended, '\n', n);
    assert(ended.take(n) =~= line);
    assert(ended.skip(n + 1) =~= Seq::<char>::empty());
    text::lemma_first_index_is(returned, '\n', n + 1);
    assert(returned.take(n + 1) =~= line.push('\r'));
    assert(line.push('\r').drop_last() =~= line);
    assert(returned.skip(n + 2) =~= Seq::<char>::empty());
    assert(text::lines(Seq::<char>::empty()) =~= Seq::<Seq<char>>::empty());
    assert(text::lines(returned) =~= seq![line]);
    if n == 0 || line.last() != '\r' {
        assert(text::lines(ended) =~= seq![line]);
    }
    if n > 0 {
        assert(text::lines(line) =~= seq![line]);
    }
}

/// A text has as many lines as it has line feeds, and one more where something
/// stands behind the last one.
pub proof fn law_lines_are_counted(s: Seq<char>)
    ensures
        text::lines(s).len() == count(s, '\n') + if s.len() > 0 && s.last() != '\n' {
            1nat
        } else {
            0nat
        },
    decreases s.len(),
{
    if s.len() > 0 {
        let at = text::first_index(s, '\n');
        text::lemma_first_index(s, '\n');
        if at < s.len() {
            let head = s.take(at);
            let rest = s.skip(at + 1);
            assert forall|i: int| 0 <= i < head.len() implies head[i] != '\n' by {
                assert(s[i] != '\n');
            }
            lemma_count_none(head, '\n');
            let feed = seq!['\n'];
            assert(s =~= head + feed + rest);
            lemma_count_sum(head + feed, rest, '\n');
            lemma_count_sum(head, feed, '\n');
            assert(feed.drop_last() =~= Seq::<char>::empty());
            reveal_with_fuel(count, 2);
            assert(count(feed, '\n') == 1);
            law_lines_are_counted(rest);
            if rest.len() > 0 {
                assert(s.last() == rest.last());
            } else {
                assert(s.last() == s[at]);
            }
        } else {
            assert(s.last() == s[s.len() - 1]);
            assert(!s.contains('\n'));
            lemma_count_none(s, '\n');
        }
    }
}

/// A line stands under the number of line feeds before it: it is what stands
/// between the line feed before it and its own, without a carriage return before
/// the latter.
pub proof fn law_line_stands_between_feeds(before: Seq<char>, line: Seq<char>, after: Seq<char>)
    requires
        before.len() == 0 || before.last() == '\n',
        !line.contains('\n'),
    ensures
        ({
            let lines = text::lines(before + line + seq!['\n'] + after);
            let at = count(before, '\n') as int;
            &&& at < lines.len()
            &&& line.len() == 0 || line.last() != '\r' ==> lines[at] == line
            &&& line.len() > 0 && line.last() == '\r' ==> lines[at] == line.drop_last()
        }),
        line.len() > 0 ==> text::lines(before + line).len() == count(before, '\n') + 1 && text::lines(
            before + line,
        ).last() == line,
{
    let ended = line + seq!['\n'];
    assert(before + line + seq!['\n'] + after =~= before + (ended + after));
    law_lines_add_up(before, ended + after);
    law_lines_add_up(ended, after);
    law_lines_are_counted(before);
    law_line_is_kept(line);
    if line.len() > 0 && line.last() == '\r' {
        let bare = line.drop_last();
        assert forall|i: int| 0 <= i < bare.len() implies bare[i] != '\n' by {
            assert(line.contains(line[i]));
        }
        law_line_is_kept(bare);
        assert(ended =~= bare + seq!['\r', '\n']);
    }
    law_lines_add_up(before, line);
}

proof fn lemma_word_length(s: Seq<char>)
    ensures
        0 <= text::word_length(s) <= s.len(),
        forall|i: int| 0 <= i < text::word_length(s) ==> !text::is_space(s[i]),
        text::word_length(s) < s.len() ==> text::is_space(s[text::word_length(s)]),
    decreases s.len(),
{
    if s.len() > 0 && !text::is_space(s[0]) {
        let rest = s.drop_first();
        lemma_word_length(rest);
        assert forall|i: int| 0 <= i < text::word_length(s) implies !text::is_space(s[i]) by {
            if i > 0 {
                assert(s[i] == rest[i - 1]);
            }
        }
    }
}

proof fn lemma_word_length_is(s: Seq<char>, n: int)
    requires
        0 <= n <= s.len(),
        forall|i: int| 0 <= i < n ==> !text::is_space(s[i]),
        n < s.len() ==> text::is_space(s[n]),
    ensures
        text::word_length(s) == n,
{
    lemma_word_length(s);
    let found = text::word_length(s);
    if found < n {
        assert(!text::is_space(s[found]));
    } else if n < found {
        assert(!text::is_space(s[n]));
    }
}

/// White space separates words and does nothing else: the words of two texts with
/// white space between them are those of the one and then those of the other.
pub proof fn law_space_separates_words(a: Seq<char>, space: char, b: Seq<char>)
    requires
        text::is_space(space),
    ensures
        text::words(a + seq![space] + b) == text::words(a) + text::words(b),
    decreases a.len(),
{
    let s = a + seq![space] + b;
    if a.len() == 0 {
        assert(s.drop_first() =~= b);
        assert(text::words(a) + text::words(b) =~= text::words(b));
    } else if text::is_space(a[0]) {
        assert(s.drop_first() =~= a.drop_first() + seq![space] + b);
        law_space_separates_words(a.drop_first(), space, b);
    } else {
        lemma_word_length(a);
        let n = text::word_length(a);
        lemma_word_length_is(s, n);
        assert(s.take(n) =~= a.take(n));
        assert(s.skip(n) =~= a.skip(n) + seq![space] + b);
        law_space_separates_words(a.skip(n), space, b);
        assert(text::words(s) =~= text::words(a) + text::words(b));
    }
}

/// A text without white space is one word, if it is not empty.
pub proof fn law_word_is_kept(word: Seq<char>)
    requires
        forall|i: int| 0 <= i < word.len() ==> !text::is_space(#[trigger] word[i]),
    ensures
        word.len() == 0 ==> text::words(word) == Seq::<Seq<char>>::empty(),
        word.len() > 0 ==> text::words(word) == seq![word],
{
    let n = word.len() as int;
    lemma_word_length_is(word, n);
    assert(word.take(n) =~= word);
    assert(word.skip(n) =~= Seq::<char>::empty());
    assert(text::words(Seq::<char>::empty()) =~= Seq::<Seq<char>>::empty());
    if n > 0 {
        assert(text::words(word) =~= seq![word]);
    }
}

/// A text is split at a separator into the pieces before it and those behind it.
pub proof fn law_separator_splits<T>(a: Seq<T>, x: T, b: Seq<T>)
    ensures
        text::split(a + seq![x] + b, x) == text::split(a, x) + text::split(b, x),
    decreases a.len(),
{
    let s = a + seq![x] + b;
    text::lemma_first_index(a, x);
    let at = text::first_index(a, x);
    if at < a.len() {
        text::lemma_first_index_is(s, x, at);
        assert(s.take(at) =~= a.take(at));
        assert(s.skip(at + 1) =~= a.skip(at + 1) + seq![x] + b);
        law_separator_splits(a.skip(at + 1), x, b);
        assert(text::split(s, x) =~= text::split(a, x) + text::split(b, x));
    } else {
        text::lemma_first_index_is(s, x, a.len() as int);
        assert(s.take(a.len() as int) =~= a);
        assert(s.skip(a.len() as int + 1) =~= b);
        assert(text::split(a, x) =~= seq![a]);
    }
}

/// A text without the separator is one piece, also where it is empty.
pub proof fn law_piece_is_kept<T>(s: Seq<T>, x: T)
    requires
        !s.contains(x),
    ensures
        text::split(s, x) == seq![s],
{
    text::lemma_first_index(s, x);
}

pub open spec fn all_space(s: Seq<char>) -> bool {
    forall|i: int| 0 <= i < s.len() ==> text::is_space(#[trigger] s[i])
}

proof fn lemma_trim_start_skips(a: Seq<char>, s: Seq<char>)
    requires
        all_space(a),
    ensures
        text::trim_start(a + s) == text::trim_start(s),
    decreases a.len(),
{
    if a.len() == 0 {
        assert(a + s =~= s);
    } else {
        assert(text::is_space(a[0]));
        assert((a + s).drop_first() =~= a.drop_first() + s);
        assert forall|i: int| 0 <= i < a.drop_first().len() implies text::is_space(
            #[trigger] a.drop_first()[i],
        ) by {
            assert(text::is_space(a[i + 1]));
        }
        lemma_trim_start_skips(a.drop_first(), s);
    }
}

proof fn lemma_trim_end_skips(s: Seq<char>, b: Seq<char>)
    requires
        all_space(b),
    ensures
        text::trim_end(s + b) == text::trim_end(s),
    decreases b.len(),
{
    if b.len() == 0 {
        assert(s + b =~= s);
    } else {
        assert(text::is_space(b[b.len() - 1]));
        assert((s + b).drop_last() =~= s + b.drop_last());
        assert forall|i: int| 0 <= i < b.drop_last().len() implies text::is_space(
            #[trigger] b.drop_last()[i],
        ) by {
            assert(text::is_space(b[i]));
        }
        lemma_trim_end_skips(s, b.drop_last());
    }
}

/// Trimming takes away the white space at the two ends of a text, all of it and
/// nothing else.
pub proof fn law_trim_takes_outer_space(a: Seq<char>, s: Seq<char>, b: Seq<char>)
    requires
        all_space(a),
        all_space(b),
        s.len() > 0 ==> !text::is_space(s[0]) && !text::is_space(s.last()),
    ensures
        text::trim(a + s + b) == s,
{
    assert(a + s + b =~= a + (s + b));
    lemma_trim_start_skips(a, s + b);
    if s.len() > 0 {
        assert(text::trim_start(s + b) == s + b);
        lemma_trim_end_skips(s, b);
    } else {
        let none = Seq::<char>::empty();
        assert(s + b =~= b + none);
        lemma_trim_start_skips(b, none);
        assert(s =~= none);
    }
}

/// Trimming the end of a line takes away the carriage returns and line feeds
/// there, all of them and nothing else.
pub proof fn law_line_end_is_trimmed(line: Seq<char>, ends: Seq<char>)
    requires
        line.len() > 0 ==> line.last() != '\r' && line.last() != '\n',
        forall|i: int| 0 <= i < ends.len() ==> ends[i] == '\r' || ends[i] == '\n',
    ensures
        text::trim_line_end(line + ends) == line,
    decreases ends.len(),
{
    if ends.len() == 0 {
        assert(line + ends =~= line);
    } else {
        assert((line + ends).drop_last() =~= line + ends.drop_last());
        assert((line + ends).last() == ends[ends.len() - 1]);
        law_line_end_is_trimmed(line, ends.drop_last());
    }
}

/// Lower case changes the letters from A to Z and no other character, each to the
/// letter that stands 32 places behind it.
pub proof fn law_ascii_letters_are_lowered(c: char)
    ensures
        'A' <= c <= 'Z' ==> text::ascii_lower(c) as int == c as int + 32,
        !('A' <= c <= 'Z') ==> text::ascii_lower(c) == c,
{
}

/// Two texts are the same but for case exactly where each character is the same,
/// or both are the same letter in the two cases.
pub proof fn law_case_alone_may_differ(a: Seq<char>, b: Seq<char>)
    ensures
        text::same_ignoring_case(a, b) <==> a.len() == b.len() && forall|i: int|
            0 <= i < a.len() ==> {
                ||| #[trigger] a[i] == b[i]
                ||| 'A' <= a[i] <= 'Z' && b[i] as int == a[i] as int + 32
                ||| 'A' <= b[i] <= 'Z' && a[i] as int == b[i] as int + 32
            },
{
    if text::same_ignoring_case(a, b) {
        assert forall|i: int| 0 <= i < a.len() implies {
            ||| #[trigger] a[i] == b[i]
            ||| 'A' <= a[i] <= 'Z' && b[i] as int == a[i] as int + 32
            ||| 'A' <= b[i] <= 'Z' && a[i] as int == b[i] as int + 32
        } by {
            assert(text::ascii_lower(a[i]) == text::ascii_lower(b[i]));
        }
    }
}

/// The decimal notation of a number has no zero at its start, but for the notation
/// of zero itself.
pub proof fn law_decimal_has_no_leading_zero(n: nat)
    ensures
        number::decimal(n).len() > 0,
        n > 0 ==> number::decimal(n)[0] != '0',
        n == 0 ==> number::decimal(n) == seq!['0'],
    decreases n,
{
    if n >= 10 {
        law_decimal_has_no_leading_zero(n / 10);
        assert(number::decimal(n)[0] == number::decimal(n / 10)[0]);
    }
}

/// A digit behind others is worth its place in the row from 0 to 9, and those
/// before it ten times what they were.
pub proof fn law_digit_counts(digits: Seq<char>, digit: char)
    ensures
        number::decimal_value(Seq::<char>::empty()) == 0,
        number::decimal_value(digits.push(digit)) == 10 * number::decimal_value(digits) + (
        digit as int - '0' as int),
{
    assert(digits.push(digit).drop_last() =~= digits);
}

/// A row of digits is read as the number that it denotes, with or without a plus
/// sign before it, unless the number is too large.
pub proof fn law_number_is_read(digits: Seq<char>, max: int)
    requires
        digits.len() > 0,
        forall|i: int| 0 <= i < digits.len() ==> '0' <= #[trigger] digits[i] <= '9',
    ensures
        ({
            let value = number::decimal_value(digits);
            let read = if value <= max {
                Some(value)
            } else {
                None
            };
            &&& number::parse_unsigned(digits, max) == read
            &&& number::parse_unsigned(seq!['+'] + digits, max) == read
        }),
{
    assert(digits[0] != '+');
    assert((seq!['+'] + digits).drop_first() =~= digits);
    assert(number::all_digits(digits));
}

/// Nothing else is read as a number: neither a text without digits nor one with
/// another character, but for a plus sign at its start.
pub proof fn law_nothing_else_is_a_number(s: Seq<char>, max: int, i: int)
    requires
        s.len() == 0 || s == seq!['+'] || (0 <= i < s.len() && !('0' <= s[i] <= '9') && (i > 0
            || s[i] != '+')),
    ensures
        number::parse_unsigned(s, max) is None,
{
    let digits = number::without_plus(s);
    if s.len() > 0 && s != seq!['+'] {
        if s[0] == '+' {
            assert(digits[i - 1] == s[i]);
            assert(!number::is_digit(digits[i - 1]));
        } else {
            assert(!number::is_digit(digits[i]));
        }
    } else if s == seq!['+'] {
        assert(s[0] == '+');
    }
}

/// Text that is encoded as UTF-8 comes out as it was.
pub proof fn law_text_survives_encoding(s: Seq<char>)
    ensures
        encoding::lossy(utf8::encode_utf8(s)) == s,
{
    utf8::encode_utf8_valid_utf8(s);
    utf8::encode_utf8_decode_utf8(s);
}

/// A hexadecimal digit is worth its place in the row of the sixteen digits, in
/// either case; no other byte is one.
pub proof fn law_hex_digits(b: u8, v: u8)
    ensures
        url::hex_digit_value(b) == Some(v) <==> {
            ||| v < 10 && b as int == '0' as int + v
            ||| 10 <= v < 16 && b as int == 'a' as int + v - 10
            ||| 10 <= v < 16 && b as int == 'A' as int + v - 10
        },
{
}

/// Bytes are encoded one by one.
pub proof fn law_escapes_add_up(a: Seq<u8>, b: Seq<u8>)
    ensures
        url::escaped(Seq::<u8>::empty()) == Seq::<u8>::empty(),
        url::escaped(a + b) == url::escaped(a) + url::escaped(b),
    decreases a.len(),
{
    assert(url::escaped(Seq::<u8>::empty()) =~= Seq::<u8>::empty());
    if a.len() == 0 {
        assert(a + b =~= b);
        assert(url::escaped(a) + url::escaped(b) =~= url::escaped(b));
    } else {
        law_escapes_add_up(a.drop_first(), b);
        assert((a + b).drop_first() =~= a.drop_first() + b);
        assert(url::escaped(a + b) =~= url::escaped(a) + url::escaped(b));
    }
}

/// A letter, a digit, `-`, `_`, `.` and `~` stand for themselves, a space becomes
/// `+`, and any other byte becomes `%` and the two hexadecimal digits of its
/// value, letters among them in upper case.
pub proof fn law_byte_is_escaped(b: u8)
    ensures
        ({
            let plain = {
                ||| 'A' as u8 <= b <= 'Z' as u8
                ||| 'a' as u8 <= b <= 'z' as u8
                ||| '0' as u8 <= b <= '9' as u8
                ||| b == '-' as u8 || b == '_' as u8 || b == '.' as u8 || b == '~' as u8
            };
            let out = url::escaped(seq![b]);
            &&& plain ==> out == seq![b]
            &&& b == ' ' as u8 ==> out == seq!['+' as u8]
            &&& !plain && b != ' ' as u8 ==> {
                &&& out.len() == 3
                &&& out[0] == '%' as u8
                &&& url::hex_digit_value(out[1]) == Some((b / 16) as u8)
                &&& url::hex_digit_value(out[2]) == Some((b % 16) as u8)
                &&& out[1] <= 'F' as u8 && out[2] <= 'F' as u8
            }
        }),
{
    assert(seq![b].drop_first() =~= Seq::<u8>::empty());
    assert(url::escaped(Seq::<u8>::empty()) =~= Seq::<u8>::empty());
    assert(url::escaped(seq![b]) =~= url::escaped_byte(b));
}

/// The parts of a text are encoded one by one, and what comes out are the
/// characters of the escaped bytes.
pub proof fn law_encoded_parts_add_up(a: Seq<char>, b: Seq<char>)
    ensures
        url::percent_encoded(a + b) == url::percent_encoded(a) + url::percent_encoded(b),
        url::percent_encoded(a).len() == url::escaped(utf8::encode_utf8(a)).len(),
        forall|i: int|
            0 <= i < url::percent_encoded(a).len() ==> #[trigger] url::percent_encoded(a)[i]
                == url::escaped(utf8::encode_utf8(a))[i] as char,
{
    crate::search::lemma_encode_concat(a, b);
    law_escapes_add_up(utf8::encode_utf8(a), utf8::encode_utf8(b));
    assert(url::percent_encoded(a + b) =~= url::percent_encoded(a) + url::percent_encoded(b));
}

/// A byte other than `+` and `%` stands for itself before whatever follows, and
/// `+` stands for a space.
pub proof fn law_plain_byte_is_decoded(b: u8, rest: Seq<u8>)
    requires
        b != '%' as u8,
    ensures
        url::unescaped(Seq::<u8>::empty()) == Seq::<u8>::empty(),
        b != '+' as u8 ==> url::unescaped(seq![b] + rest) == seq![b] + url::unescaped(rest),
        url::unescaped(seq!['+' as u8] + rest) == seq![' ' as u8] + url::unescaped(rest),
{
    assert((seq![b] + rest).drop_first() =~= rest);
    assert((seq!['+' as u8] + rest).drop_first() =~= rest);
}

/// `%` and two hexadecimal digits stand for one byte before whatever follows. With
/// two other bytes, or fewer than two, `%` and they stand for themselves.
pub proof fn law_escape_is_decoded(hi: u8, lo: u8, rest: Seq<u8>)
    ensures
        ({
            let out = url::unescaped(seq!['%' as u8, hi, lo] + rest);
            match (url::hex_digit_value(hi), url::hex_digit_value(lo)) {
                (Some(h), Some(l)) => out == seq![(16 * h + l) as u8] + url::unescaped(rest),
                _ => out == seq!['%' as u8, hi, lo] + url::unescaped(rest),
            }
        }),
        url::unescaped(seq!['%' as u8, hi]) == seq!['%' as u8, hi],
        url::unescaped(seq!['%' as u8]) == seq!['%' as u8],
{
    let whole = seq!['%' as u8, hi, lo] + rest;
    assert(whole.skip(3) =~= rest);
    assert(whole.take(3) =~= seq!['%' as u8, hi, lo]);
    assert(whole[1] == hi && whole[2] == lo);
}

proof fn lemma_plain_bytes_decode(bytes: Seq<u8>)
    requires
        forall|i: int| 0 <= i < bytes.len() ==> bytes[i] != '+' as u8 && bytes[i] != '%' as u8,
    ensures
        url::unescaped(bytes) == bytes,
    decreases bytes.len(),
{
    if bytes.len() > 0 {
        lemma_plain_bytes_decode(bytes.drop_first());
        assert(seq![bytes[0]] + bytes.drop_first() =~= bytes);
    } else {
        assert(bytes =~= Seq::<u8>::empty());
    }
}

/// A text whose bytes are neither `+` nor `%` is decoded to itself.
pub proof fn law_plain_text_is_decoded(s: Seq<char>)
    requires
        forall|i: int|
            0 <= i < utf8::encode_utf8(s).len() ==> #[trigger] utf8::encode_utf8(s)[i] != '+' as u8
                && utf8::encode_utf8(s)[i] != '%' as u8,
    ensures
        url::percent_decoded(s) == s,
{
    lemma_plain_bytes_decode(utf8::encode_utf8(s));
    law_text_survives_encoding(s);
}

/// What is decoded is the text of the bytes that the text's bytes stand for.
pub proof fn law_decoded_bytes_are_text(s: Seq<char>, meant: Seq<char>)
    requires
        url::unescaped(utf8::encode_utf8(s)) == utf8::encode_utf8(meant),
    ensures
        url::percent_decoded(s) == meant,
{
    law_text_survives_encoding(meant);
}

proof fn lemma_pairs_add_up(a: Seq<Seq<char>>, b: Seq<Seq<char>>)
    ensures
        url::query_pairs_of(a + b) == url::query_pairs_of(a) + url::query_pairs_of(b),
    decreases b.len(),
{
    if b.len() == 0 {
        assert(a + b =~= a);
        assert(url::query_pairs_of(a) + url::query_pairs_of(b) =~= url::query_pairs_of(a));
    } else {
        assert((a + b).drop_last() =~= a + b.drop_last());
        lemma_pairs_add_up(a, b.drop_last());
        assert(url::query_pairs_of(a + b) =~= url::query_pairs_of(a) + url::query_pairs_of(b));
    }
}

/// The pairs of two queries with `&` between them are those of the one and then
/// those of the other.
pub proof fn law_queries_add_up(a: Seq<char>, b: Seq<char>)
    ensures
        url::query_pairs(a + seq!['&'] + b) == url::query_pairs(a) + url::query_pairs(b),
{
    law_separator_splits(a, '&', b);
    lemma_pairs_add_up(text::split(a, '&'), text::split(b, '&'));
}

/// A part of a query is a key, the first `=` and a value, both decoded. Without
/// `=` the value is empty, and an empty part is no pair.
pub proof fn law_query_part_is_a_pair(key: Seq<char>, value: Seq<char>)
    requires
        !key.contains('='),
        !key.contains('&'),
        !value.contains('&'),
    ensures
        url::query_pairs(key + seq!['='] + value) == seq![
            (url::percent_decoded(key), url::percent_decoded(value)),
        ],
        key.len() > 0 ==> url::query_pairs(key) == seq![
            (url::percent_decoded(key), Seq::<char>::empty()),
        ],
        key.len() == 0 ==> url::query_pairs(key) == Seq::<(Seq<char>, Seq<char>)>::empty(),
{
    let part = key + seq!['='] + value;
    assert forall|i: int| 0 <= i < part.len() implies part[i] != '&' by {
        if i < key.len() {
            assert(key.contains(key[i]));
        } else if i > key.len() {
            assert(value.contains(value[i - key.len() - 1]));
        }
    }
    law_piece_is_kept(part, '&');
    law_piece_is_kept(key, '&');
    text::lemma_split_once_is(key, '=', value);
    text::lemma_split_once_none(key, '=');
    law_text_survives_encoding(Seq::empty());
    lemma_plain_bytes_decode(Seq::empty());
    assert(utf8::encode_utf8(Seq::<char>::empty()) =~= Seq::<u8>::empty());
    assert(seq![part].drop_last() =~= Seq::<Seq<char>>::empty());
    assert(seq![key].drop_last() =~= Seq::<Seq<char>>::empty());
    reveal_with_fuel(url::query_pairs_of, 2);
    assert(url::query_pairs(part) =~= seq![
        (url::percent_decoded(key), url::percent_decoded(value)),
    ]);
    if key.len() > 0 {
        assert(url::query_pairs(key) =~= seq![(url::percent_decoded(key), Seq::<char>::empty())]);
    }
}

} // verus!
