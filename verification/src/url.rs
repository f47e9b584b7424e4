//! Percent encoding and query strings.
use crate::encoding;
use crate::text;
use vstd::prelude::*;

verus! {

/// The bytes that stand for themselves in an encoded text: letters, digits,
/// and `-`, `_`, `.`, `~`.
pub open spec fn is_unreserved(b: u8) -> bool {
    ||| 'A' as u8 <= b <= 'Z' as u8
    ||| 'a' as u8 <= b <= 'z' as u8
    ||| '0' as u8 <= b <= '9' as u8
    ||| b == '-' as u8
    ||| b == '_' as u8
    ||| b == '.' as u8
    ||| b == '~' as u8
}

/// The upper-case hexadecimal digit of a number below 16.
pub open spec fn upper_hex(n: int) -> u8 {
    if n < 10 {
        ('0' as u8 + n) as u8
    } else {
        ('A' as u8 + n - 10) as u8
    }
}

/// The value of a hexadecimal digit of either case.
pub open spec fn hex_digit_value(b: u8) -> Option<u8> {
    if '0' as u8 <= b <= '9' as u8 {
        Some((b - '0' as u8) as u8)
    } else if 'a' as u8 <= b <= 'f' as u8 {
        Some((b - 'a' as u8 + 10) as u8)
    } else if 'A' as u8 <= b <= 'F' as u8 {
        Some((b - 'A' as u8 + 10) as u8)
    } else {
        None
    }
}

/// One byte, encoded: itself, `+` for a space, or `%` and two digits.
pub open spec fn escaped_byte(b: u8) -> Seq<u8> {
    if is_unreserved(b) {
        seq![b]
    } else if b == ' ' as u8 {
        seq!['+' as u8]
    } else {
        seq!['%' as u8, upper_hex(b as int / 16), upper_hex(b as int % 16)]
    }
}

/// Bytes, encoded one by one.
pub open spec fn escaped(bytes: Seq<u8>) -> Seq<u8>
    decreases bytes.len(),
{
    if bytes.len() == 0 {
        Seq::empty()
    } else {
        escaped_byte(bytes[0]) + escaped(bytes.drop_first())
    }
}

/// Bytes, decoded. `%` takes the two bytes behind it, as far as there are two.
/// Where they are hexadecimal digits the three stand for one byte, elsewhere
/// they stand for themselves.
pub open spec fn unescaped(bytes: Seq<u8>) -> Seq<u8>
    decreases bytes.len(),
{
    if bytes.len() == 0 {
        Seq::empty()
    } else if bytes[0] == '+' as u8 {
        seq![' ' as u8] + unescaped(bytes.drop_first())
    } else if bytes[0] != '%' as u8 {
        seq![bytes[0]] + unescaped(bytes.drop_first())
    } else if bytes.len() < 3 {
        bytes
    } else {
        match (hex_digit_value(bytes[1]), hex_digit_value(bytes[2])) {
            (Some(hi), Some(lo)) => seq![(16 * hi + lo) as u8] + unescaped(bytes.skip(3)),
            _ => bytes.take(3) + unescaped(bytes.skip(3)),
        }
    }
}

/// A text, percent-encoded.
pub open spec fn percent_encoded(s: Seq<char>) -> Seq<char> {
    encoding::ascii_text(escaped(vstd::utf8::encode_utf8(s)))
}

/// A text, percent-decoded.
pub open spec fn percent_decoded(s: Seq<char>) -> Seq<char> {
    encoding::lossy(unescaped(vstd::utf8::encode_utf8(s)))
}

/// The characters that an encoded text consists of.
pub open spec fn is_url_safe(c: char) -> bool {
    c == '+' || c == '%' || (c as int <= 127 && is_unreserved(c as u8))
}

proof fn lemma_escaped_is_safe(bytes: Seq<u8>)
    ensures
        encoding::is_ascii_bytes(escaped(bytes)),
        forall|i: int| 0 <= i < escaped(bytes).len() ==> is_url_safe(#[trigger] escaped(bytes)[i] as char),
    decreases bytes.len(),
{
    if bytes.len() > 0 {
        let head = escaped_byte(bytes[0]);
        let rest = escaped(bytes.drop_first());
        lemma_escaped_is_safe(bytes.drop_first());
        let all = escaped(bytes);
        assert(all == head + rest);
        assert forall|i: int| 0 <= i < all.len() implies #[trigger] all[i] < 128 && is_url_safe(
            all[i] as char,
        ) by {
            if i < head.len() {
                assert(all[i] == head[i]);
            } else {
                assert(all[i] == rest[i - head.len()]);
                assert(rest[i - head.len()] < 128);
            }
        }
    }
}

proof fn lemma_escaped_read_back(bytes: Seq<u8>)
    ensures
        unescaped(escaped(bytes)) == bytes,
    decreases bytes.len(),
{
    if bytes.len() == 0 {
        assert(escaped(bytes) =~= Seq::<u8>::empty());
    } else {
        let b = bytes[0];
        let rest = escaped(bytes.drop_first());
        lemma_escaped_read_back(bytes.drop_first());
        let all = escaped(bytes);
        if is_unreserved(b) || b == ' ' as u8 {
            assert(all.drop_first() =~= rest);
            assert(unescaped(all) =~= bytes);
        } else {
            assert(all.skip(3) =~= rest);
            let hi = b as int / 16;
            let lo = b as int % 16;
            assert(hex_digit_value(upper_hex(hi)) == Some(hi as u8));
            assert(hex_digit_value(upper_hex(lo)) == Some(lo as u8));
            assert(all[1] == upper_hex(hi) && all[2] == upper_hex(lo));
            assert(unescaped(all) =~= bytes);
        }
    }
}

/// An encoded text consists of unreserved characters, `+` and `%` alone.
pub proof fn law_encoded_is_url_safe(s: Seq<char>)
    ensures
        forall|i: int| 0 <= i < percent_encoded(s).len() ==> is_url_safe(#[trigger] percent_encoded(s)[i]),
{
    let bytes = escaped(vstd::utf8::encode_utf8(s));
    lemma_escaped_is_safe(vstd::utf8::encode_utf8(s));
    assert forall|i: int| 0 <= i < percent_encoded(s).len() implies is_url_safe(
        #[trigger] percent_encoded(s)[i],
    ) by {
        assert(is_url_safe(bytes[i] as char));
    }
}

/// Decoding an encoded text gives the text back.
pub proof fn law_percent_read_back(s: Seq<char>)
    ensures
        percent_decoded(percent_encoded(s)) == s,
{
    let bytes = vstd::utf8::encode_utf8(s);
    lemma_escaped_is_safe(bytes);
    encoding::lemma_ascii_text_encodes(escaped(bytes));
    lemma_escaped_read_back(bytes);
    vstd::utf8::encode_utf8_valid_utf8(s);
    vstd::utf8::encode_utf8_decode_utf8(s);
}

/// Encodes a text for use in a query string.
pub fn percent_encode(value: &str) -> (output: String)
    ensures
        output@ == percent_encoded(value@),
{
    let bytes = value.as_bytes();
    let ghost all = escaped(bytes@);
    let mut output = String::new();
    let mut i: usize = 0;
    let ghost mut done: Seq<u8> = Seq::empty();
    proof {
        assert(bytes@.skip(0) =~= bytes@);
        assert(done + all =~= all);
        assert(encoding::ascii_text(done) =~= output@);
    }
    while i < bytes.len()
        invariant
            i <= bytes@.len(),
            all == escaped(bytes@),
            all == done + escaped(bytes@.skip(i as int)),
            output@ == encoding::ascii_text(done),
        decreases bytes@.len() - i,
    {
        let b = bytes[i];
        let ghost before = done;
        let ghost shown = output@;
        if is_unreserved_byte(b) {
            output.push(b as char);
        } else if b == 32 {
            output.push('+');
        } else {
            output.push('%');
            output.push(upper_hex_digit(b / 16) as char);
            output.push(upper_hex_digit(b % 16) as char);
        }
        proof {
            let head = escaped_byte(b);
            done = before + head;
            assert(bytes@.skip(i as int).drop_first() =~= bytes@.skip(i + 1));
            assert(all =~= done + escaped(bytes@.skip(i + 1)));
            assert(encoding::ascii_text(done) =~= encoding::ascii_text(before)
                + encoding::ascii_text(head));
            assert(output@ =~= shown + encoding::ascii_text(head));
        }
        i += 1;
    }
    assert(done + escaped(bytes@.skip(i as int)) =~= done);
    output
}

fn is_unreserved_byte(b: u8) -> (yes: bool)
    ensures
        yes == is_unreserved(b),
{
    (65 <= b && b <= 90) || (97 <= b && b <= 122) || (48 <= b && b <= 57) || b == 45 || b == 95
        || b == 46 || b == 126
}

fn upper_hex_digit(n: u8) -> (digit: u8)
    requires
        n < 16,
    ensures
        digit == upper_hex(n as int),
{
    if n < 10 {
        48 + n
    } else {
        65 + (n - 10)
    }
}

/// The value of a hexadecimal digit, or `None` for any other byte.
pub fn hex_value(byte: u8) -> (value: Option<u8>)
    ensures
        value == hex_digit_value(byte),
        value is Some ==> value->0 < 16,
{
    if 48 <= byte && byte <= 57 {
        Some(byte - 48)
    } else if 97 <= byte && byte <= 102 {
        Some(byte - 97 + 10)
    } else if 65 <= byte && byte <= 70 {
        Some(byte - 65 + 10)
    } else {
        None
    }
}

/// Decodes a part of a query string. Bytes that are not valid UTF-8 after
/// decoding are repaired.
pub fn percent_decode(value: &str) -> (text: String)
    ensures
        text@ == percent_decoded(value@),
{
    let input = value.as_bytes();
    let mut bytes: Vec<u8> = Vec::new();
    let mut i: usize = 0;
    assert(input@.skip(0) =~= input@);
    assert(bytes@ + unescaped(input@) =~= unescaped(input@));
    while i < input.len()
        invariant
            i <= input@.len(),
            unescaped(input@) == bytes@ + unescaped(input@.skip(i as int)),
        decreases input@.len() - i,
    {
        let ghost tail = input@.skip(i as int);
        let ghost before = bytes@;
        let byte = input[i];
        if byte == 43 {
            bytes.push(32);
            assert(tail.drop_first() =~= input@.skip(i + 1));
            assert(before + unescaped(tail) =~= bytes@ + unescaped(input@.skip(i + 1)));
            i += 1;
        } else if byte != 37 {
            bytes.push(byte);
            assert(tail.drop_first() =~= input@.skip(i + 1));
            assert(before + unescaped(tail) =~= bytes@ + unescaped(input@.skip(i + 1)));
            i += 1;
        } else if input.len() - i < 3 {
            bytes.push(37);
            if input.len() - i == 2 {
                bytes.push(input[i + 1]);
            }
            i = input.len();
            assert(input@.skip(i as int) =~= Seq::<u8>::empty());
            assert(before + unescaped(tail) =~= bytes@ + unescaped(input@.skip(i as int)));
        } else {
            let hi = input[i + 1];
            let lo = input[i + 2];
            assert(tail[1] == hi && tail[2] == lo);
            assert(tail.skip(3) =~= input@.skip(i + 3));
            match (hex_value(hi), hex_value(lo)) {
                (Some(h), Some(l)) => {
                    bytes.push(h * 16 + l);
                },
                _ => {
                    bytes.push(37);
                    bytes.push(hi);
                    bytes.push(lo);
                },
            }
            assert(before + unescaped(tail) =~= bytes@ + unescaped(input@.skip(i + 3)));
            i += 3;
        }
    }
    assert(bytes@ + unescaped(input@.skip(i as int)) =~= bytes@);
    encoding::decode_lossy(bytes.as_slice())
}

/// The key and the value that one part of a query string holds.
pub open spec fn query_pair(part: Seq<char>) -> (Seq<char>, Seq<char>) {
    match text::split_once(part, '=') {
        Some((key, value)) => (percent_decoded(key), percent_decoded(value)),
        None => (percent_decoded(part), percent_decoded(Seq::empty())),
    }
}

/// The pairs of the parts that are not empty, in order.
pub open spec fn query_pairs_of(parts: Seq<Seq<char>>) -> Seq<(Seq<char>, Seq<char>)>
    decreases parts.len(),
{
    if parts.len() == 0 {
        Seq::empty()
    } else if parts.last().len() == 0 {
        query_pairs_of(parts.drop_last())
    } else {
        query_pairs_of(parts.drop_last()).push(query_pair(parts.last()))
    }
}

/// The keys and values of a query string.
pub open spec fn query_pairs(query: Seq<char>) -> Seq<(Seq<char>, Seq<char>)> {
    query_pairs_of(text::split(query, '&'))
}

/// The texts that a list of string pairs holds.
pub open spec fn pair_texts(pairs: Seq<(String, String)>) -> Seq<(Seq<char>, Seq<char>)> {
    pairs.map_values(|p: (String, String)| (p.0@, p.1@))
}

/// Reads the keys and values of a query string.
pub fn parse_query(query: &str) -> (pairs: Vec<(String, String)>)
    ensures
        pair_texts(pairs@) == query_pairs(query@),
{
    let chars = text::chars_of(query);
    let parts = text::split_at_every(chars.as_slice(), '&');
    let ghost all = text::texts(parts@);
    let mut pairs: Vec<(String, String)> = Vec::new();
    let mut i: usize = 0;
    assert(pair_texts(pairs@) =~= query_pairs_of(all.take(0)));
    while i < parts.len()
        invariant
            i <= parts@.len(),
            all == text::texts(parts@),
            pair_texts(pairs@) == query_pairs_of(all.take(i as int)),
        decreases parts@.len() - i,
    {
        let part = text::chars_of(parts[i].as_str());
        assert(part@ == all[i as int]);
        assert(all.take(i + 1).drop_last() =~= all.take(i as int));
        if part.len() > 0 {
            let ghost before = pairs@;
            let (key, value) = match text::split_at_char(part.as_slice(), '=') {
                Some((key, value)) => (text::string_of(key), text::string_of(value)),
                None => (text::string_of(part.as_slice()), String::new()),
            };
            let pair = (percent_decode(key.as_str()), percent_decode(value.as_str()));
            pairs.push(pair);
            assert(pair_texts(pairs@) =~= pair_texts(before).push((pair.0@, pair.1@)));
        }
        i += 1;
    }
    assert(all.take(i as int) =~= all);
    pairs
}

} // verus!
