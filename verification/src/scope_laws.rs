//! What holds of every scope: names, extensions and patterns.
use crate::encoding;
use crate::globs;
use crate::path;
use crate::path_laws;
use crate::scope;
use crate::scope::Scope;
use crate::text;
use crate::text_laws;
use vstd::prelude::*;
use vstd::utf8;

verus! {

/// Eleven names are left out, and no other.
pub proof fn law_names_left_out(name: Seq<char>)
    ensures
        scope::is_excluded(name) <==> seq![
            ".git"@,
            "target"@,
            "node_modules"@,
            ".cache"@,
            ".cargo"@,
            ".devdata"@,
            ".rustup"@,
            ".vim"@,
            ".venv"@,
            "vendor"@,
            "tmp"@,
        ].contains(name),
{
    let list = seq![
        ".git"@,
        "target"@,
        "node_modules"@,
        ".cache"@,
        ".cargo"@,
        ".devdata"@,
        ".rustup"@,
        ".vim"@,
        ".venv"@,
        "vendor"@,
        "tmp"@,
    ];
    assert(list.contains(list[0]) && list.contains(list[1]) && list.contains(list[2])
        && list.contains(list[3]) && list.contains(list[4]) && list.contains(list[5])
        && list.contains(list[6]) && list.contains(list[7]) && list.contains(list[8])
        && list.contains(list[9]) && list.contains(list[10]));
}

/// Whether bytes spell a word of small letters, in either case.
pub open spec fn spells(bytes: Seq<u8>, word: Seq<char>) -> bool {
    &&& bytes.len() == word.len()
    &&& forall|i: int|
        0 <= i < word.len() ==> (#[trigger] bytes[i]) as int == word[i] as int || (65 <= bytes[i]
            <= 90 && bytes[i] + 32 == word[i] as int)
}

proof fn lemma_spells(bytes: Seq<u8>, word: Seq<char>)
    requires
        forall|i: int| 0 <= i < word.len() ==> 'a' <= #[trigger] word[i] <= 'z',
    ensures
        spells(bytes, word) <==> scope::lower_bytes(bytes) == utf8::encode_utf8(word),
{
    assert(utf8::is_ascii_chars(word)) by {
        assert forall|i: int| 0 <= i < word.len() implies '\0' <= #[trigger] word[i]
            <= '\u{7f}' by {
            assert('a' <= word[i] <= 'z');
        }
    }
    utf8::is_ascii_chars_encode_utf8(word);
    let lower = scope::lower_bytes(bytes);
    let wanted = utf8::encode_utf8(word);
    if spells(bytes, word) {
        assert forall|i: int| 0 <= i < word.len() implies lower[i] == wanted[i] by {
            assert('a' <= word[i] <= 'z');
            assert(bytes[i] as int == word[i] as int || bytes[i] + 32 == word[i] as int);
            assert(wanted[i] == word[i] as u8);
        }
        assert(lower =~= wanted);
    }
    if lower == wanted {
        assert forall|i: int| 0 <= i < word.len() implies (#[trigger] bytes[i]) as int
            == word[i] as int || (65 <= bytes[i] <= 90 && bytes[i] + 32 == word[i] as int) by {
            assert('a' <= word[i] <= 'z');
            assert(lower[i] == scope::lower_byte(bytes[i]));
            assert(wanted[i] == word[i] as u8);
        }
    }
}

/// Three extensions are those of Markdown, in either case of each letter, and no
/// other.
pub proof fn law_markdown_extensions(ext: Seq<u8>)
    ensures
        scope::is_markdown_extension(ext) <==> spells(ext, "md"@) || spells(ext, "markdown"@)
            || spells(ext, "mdown"@),
{
    reveal_strlit("md");
    reveal_strlit("markdown");
    reveal_strlit("mdown");
    lemma_spells(ext, "md"@);
    lemma_spells(ext, "markdown"@);
    lemma_spells(ext, "mdown"@);
}

/// A path names a Markdown file exactly where what stands behind the last dot of
/// its file name is an extension of Markdown, and something stands before the dot.
pub proof fn law_markdown_is_told_by_extension(base: Seq<u8>, stem: Seq<u8>, ext: Seq<u8>)
    requires
        base.len() == 0 || base.last() == 47,
        !stem.contains(47),
        !ext.contains(47),
        !ext.contains(46),
        stem + seq![46u8] + ext != seq![46u8],
        stem + seq![46u8] + ext != seq![46u8, 46u8],
    ensures
        scope::is_markdown_path(base + (stem + seq![46u8] + ext)) <==> stem.len() > 0
            && scope::is_markdown_extension(ext),
{
    path_laws::law_extension_is_behind_last_dot(base, stem, ext);
}

/// A file without an extension, or without a file name, is not Markdown.
pub proof fn law_markdown_has_extension(p: Seq<u8>)
    requires
        path::extension(p) is None,
    ensures
        !scope::is_markdown_path(p),
{
}

/// A path is watched exactly where what stands before its last name is, and the
/// name is not left out.
pub proof fn law_every_name_must_be_watchable(base: Seq<u8>, name: Seq<u8>)
    requires
        base.len() == 0 || base.last() == 47,
        name.len() > 0,
        !name.contains(47),
        base.len() > 0 ==> name != seq![46u8],
    ensures
        scope::is_watchable(base + name) <==> scope::is_watchable(base) && !scope::is_excluded(
            encoding::lossy(name),
        ),
        scope::is_watchable(Seq::<u8>::empty()),
{
    path_laws::law_name_is_last_component(base, name);
    path_laws::law_end_adds_no_component(base);
    let parts = path::components(base);
    let all = path::components(base + name);
    assert(all == parts.push(name));
    if scope::is_watchable(base + name) {
        assert forall|i: int| 0 <= i < parts.len() implies !scope::is_excluded(
            encoding::lossy(#[trigger] parts[i]),
        ) by {
            assert(all[i] == parts[i]);
        }
        assert(all[parts.len() as int] == name);
    }
    if scope::is_watchable(base) && !scope::is_excluded(encoding::lossy(name)) {
        assert forall|i: int| 0 <= i < all.len() implies !scope::is_excluded(
            encoding::lossy(#[trigger] all[i]),
        ) by {
            if i < parts.len() {
                assert(all[i] == parts[i]);
            }
        }
    }
}

proof fn lemma_slash()
    ensures
        utf8::encode_utf8(seq!['/']) == seq![47u8],
{
    assert(utf8::is_ascii_chars(seq!['/']));
    utf8::is_ascii_chars_encode_utf8(seq!['/']);
    assert(utf8::encode_utf8(seq!['/']) =~= seq![47u8]);
}

/// A text starts with a slash exactly where its bytes do, and ends in one where
/// they do.
proof fn lemma_slash_at_ends(s: Seq<char>)
    requires
        s.len() > 0,
    ensures
        utf8::encode_utf8(s).len() > 0,
        s[0] == '/' <==> utf8::encode_utf8(s)[0] == 47,
        s.last() == '/' <==> utf8::encode_utf8(s).last() == 47,
{
    lemma_slash();
    let bytes = utf8::encode_utf8(s);
    let first = seq![s[0]];
    let last = seq![s.last()];
    assert(s =~= first + s.drop_first());
    assert(s =~= s.drop_last() + last);
    crate::search::lemma_encode_concat(first, s.drop_first());
    crate::search::lemma_encode_concat(s.drop_last(), last);
    utf8::encode_utf8_first_scalar(first);
    utf8::encode_utf8_first_scalar(last);
    lemma_slash_byte(first);
    lemma_slash_byte(last);
    assert(bytes[0] == utf8::encode_utf8(first)[0]);
    assert(bytes.last() == utf8::encode_utf8(last).last());
}

proof fn lemma_slash_byte(one: Seq<char>)
    requires
        one.len() == 1,
    ensures
        utf8::encode_utf8(one).len() > 0,
        one[0] == '/' <==> utf8::encode_utf8(one)[0] == 47,
        one[0] == '/' <==> utf8::encode_utf8(one).last() == 47,
{
    lemma_slash();
    let bytes = utf8::encode_utf8(one);
    utf8::encode_utf8_valid_utf8(one);
    utf8::encode_utf8_first_scalar(one);
    if one[0] == '/' {
        assert(one =~= seq!['/']);
    } else {
        if '\0' <= one[0] <= '\u{7f}' {
            assert(utf8::is_ascii_chars(one));
            utf8::is_ascii_chars_encode_utf8(one);
            assert(bytes[0] == one[0] as u8);
        } else {
            assert forall|i: int| 0 <= i < bytes.len() implies bytes[i] != 47 by {
                if bytes[i] == 47 {
                    lemma_ascii_byte_is_char(one, i);
                }
            }
        }
    }
}

/// A byte of ASCII in a text of one character is that character.
proof fn lemma_ascii_byte_is_char(one: Seq<char>, i: int)
    requires
        one.len() == 1,
        0 <= i < utf8::encode_utf8(one).len(),
        utf8::encode_utf8(one)[i] == 47,
    ensures
        one[0] == '/',
{
    let bytes = utf8::encode_utf8(one);
    utf8::encode_utf8_valid_utf8(one);
    utf8::encode_utf8_decode_utf8(one);
    utf8::is_char_boundary_iff_not_is_continuation_byte(bytes, i);
    utf8::is_char_boundary_start_end_of_seq(bytes);
    crate::search::law_columns_count_characters(one, 0, i);
    crate::search::law_columns_count_characters(one, i, bytes.len() as int);
    assert(i == 0);
    utf8::encode_utf8_first_scalar(one);
    let code = utf8::decode_first_scalar(bytes);
    assert(utf8::is_leading_byte_width_1(47u8));
    assert(utf8::leading_bits_width_1(47u8) == 47) by (bit_vector);
    assert(code == 47);
    utf8::char_u32_cast(one[0], code);
    utf8::char_u32_cast('/', code);
}

/// Below a root that is text, a relative pattern stands behind the root and a
/// slash. One that starts with `~/` stands behind the home directory and a slash,
/// or behind the root where the home directory is not known. An absolute pattern
/// stays as it is.
pub proof fn law_pattern_is_completed(root: Seq<char>, home: Seq<char>, pattern: Seq<char>)
    requires
        root.len() > 0,
        root.last() != '/',
        home.len() > 0,
        home.last() != '/',
        pattern.len() > 0,
        pattern[0] != '/',
    ensures
        ({
            let r = utf8::encode_utf8(root);
            let h = Some(utf8::encode_utf8(home));
            let below_home = "~/"@ + pattern;
            &&& scope::normalized(r, None, pattern) == root + seq!['/'] + pattern
            &&& !"~/"@.is_prefix_of(pattern) ==> scope::normalized(r, h, pattern) == root
                + seq!['/'] + pattern
            &&& scope::normalized(r, h, below_home) == home + seq!['/'] + pattern
            &&& scope::normalized(r, h, seq!['/'] + pattern) == seq!['/'] + pattern
            &&& scope::normalized(r, None, seq!['/'] + pattern) == seq!['/'] + pattern
        }),
{
    reveal_strlit("~/");
    lemma_slash();
    lemma_slash_at_ends(root);
    lemma_slash_at_ends(home);
    lemma_slash_at_ends(pattern);
    lemma_slash_at_ends(seq!['/'] + pattern);
    lemma_joined_text(root, pattern);
    lemma_joined_text(home, pattern);
    let below_home = "~/"@ + pattern;
    assert("~/"@ =~= below_home.subrange(0, 2));
    assert(below_home.skip(2) =~= pattern);
    let whole = seq!['/'] + pattern;
    if "~/"@.is_prefix_of(whole) {
        assert(whole.subrange(0, 2)[0] == '/');
        assert("~/"@[0] == '~');
    }
}

proof fn lemma_joined_text(base: Seq<char>, tail: Seq<char>)
    requires
        base.len() > 0,
        base.last() != '/',
        tail.len() > 0 ==> tail[0] != '/',
    ensures
        encoding::lossy(path::joined(utf8::encode_utf8(base), utf8::encode_utf8(tail))) == base
            + seq!['/'] + tail,
{
    lemma_slash();
    lemma_slash_at_ends(base);
    if tail.len() > 0 {
        lemma_slash_at_ends(tail);
    } else {
        assert(utf8::encode_utf8(tail) =~= Seq::<u8>::empty());
    }
    let whole = base + seq!['/'] + tail;
    crate::search::lemma_encode_concat(base, seq!['/']);
    crate::search::lemma_encode_concat(base + seq!['/'], tail);
    assert(utf8::encode_utf8(base).push(47u8) =~= utf8::encode_utf8(base) + seq![47u8]);
    assert(path::joined(utf8::encode_utf8(base), utf8::encode_utf8(tail)) == utf8::encode_utf8(
        whole,
    ));
    text_laws::law_text_survives_encoding(whole);
}

/// By default Markdown files are taken that lie in the root, in one of its
/// directories, or anywhere below a `memo` in one of these; and the root, its
/// directories, and the `memo` in these with all below them are watched.
pub proof fn law_default_patterns(root: Seq<char>)
    requires
        root.len() > 0,
        root.last() != '/',
    ensures
        ({
            let r = utf8::encode_utf8(root);
            let b = root + seq!['/'];
            &&& scope::default_includes(r) == seq![
                b + "*.md"@,
                b + "*.markdown"@,
                b + "*.mdown"@,
                b + "*/*.md"@,
                b + "*/*.markdown"@,
                b + "*/*.mdown"@,
                b + "*/memo/**/*.md"@,
                b + "*/memo/**/*.markdown"@,
                b + "*/memo/**/*.mdown"@,
            ]
            &&& scope::default_watches(r) == seq![
                b + ""@,
                b + "*/"@,
                b + "*/memo/"@,
                b + "*/memo/**/"@,
            ]
        }),
{
    reveal_strlit("*.md");
    reveal_strlit("*.markdown");
    reveal_strlit("*.mdown");
    reveal_strlit("*/*.md");
    reveal_strlit("*/*.markdown");
    reveal_strlit("*/*.mdown");
    reveal_strlit("*/memo/**/*.md");
    reveal_strlit("*/memo/**/*.markdown");
    reveal_strlit("*/memo/**/*.mdown");
    reveal_strlit("");
    reveal_strlit("*/");
    reveal_strlit("*/memo/");
    reveal_strlit("*/memo/**/");
    lemma_joined_text(root, "*.md"@);
    lemma_joined_text(root, "*.markdown"@);
    lemma_joined_text(root, "*.mdown"@);
    lemma_joined_text(root, "*/*.md"@);
    lemma_joined_text(root, "*/*.markdown"@);
    lemma_joined_text(root, "*/*.mdown"@);
    lemma_joined_text(root, "*/memo/**/*.md"@);
    lemma_joined_text(root, "*/memo/**/*.markdown"@);
    lemma_joined_text(root, "*/memo/**/*.mdown"@);
    lemma_joined_text(root, ""@);
    lemma_joined_text(root, "*/"@);
    lemma_joined_text(root, "*/memo/"@);
    lemma_joined_text(root, "*/memo/**/"@);
}

/// Patterns among the options take the place of those of the configuration, and
/// these, also where the list is empty, of the default ones.
pub proof fn law_patterns_are_chosen(
    options: Seq<Seq<char>>,
    list: Vec<String>,
    configured: Option<Vec<String>>,
    root: Seq<u8>,
)
    ensures
        options.len() > 0 ==> scope::chosen_includes(options, configured, root) == options,
        scope::chosen_includes(Seq::empty(), Some(list), root) == text::texts(list@),
        scope::chosen_includes(Seq::empty(), None, root) == scope::default_includes(root),
        scope::chosen_watches(Some(list), root) == text::texts(list@),
        scope::chosen_watches(None, root) == scope::default_watches(root),
        scope::takes_all(true, None) && scope::takes_all(true, Some(false)),
        scope::takes_all(false, Some(true)),
        !scope::takes_all(false, None) && !scope::takes_all(false, Some(false)),
{
}

/// Only Markdown files are indexed: all of them where the scope takes all, else
/// those that one of the patterns matches.
pub proof fn law_indexed_files(scope: Scope, p: Seq<u8>)
    ensures
        scope.indexes(p) ==> scope::is_markdown_path(p),
        scope.all ==> scope.indexes(p) == scope::is_markdown_path(p),
        !scope.all && scope::is_markdown_path(p) ==> (scope.indexes(p) <==> exists|i: int|
            0 <= i < globs::set_globs(scope.included).len() && #[trigger] globs::glob_matches(
                globs::set_globs(scope.included)[i].0,
                globs::set_globs(scope.included)[i].1,
                p,
            )),
{
}

/// Whether the pattern at a position, completed, is a glob with a matcher that
/// matches a path.
pub open spec fn watch_pattern_matches(scope: Scope, i: int, p: Seq<u8>) -> bool {
    let pattern = scope::normalized(
        scope.root@,
        path::optional_bytes(scope.home),
        scope.watch_patterns@[i]@,
    );
    &&& globs::glob_error(pattern, true) is None
    &&& globs::glob_regex_error(pattern, true) is None
    &&& globs::matcher_matches(pattern, true, p)
}

/// A directory is watched exactly where one of the watch patterns, completed,
/// matches it.
pub proof fn law_watched_directories(scope: Scope, p: Seq<u8>)
    ensures
        scope.watches(p) <==> exists|i: int|
            0 <= i < scope.watch_patterns@.len() && #[trigger] watch_pattern_matches(scope, i, p),
{
    let list = scope.watch_globs();
    assert(list.len() == scope.watch_patterns@.len());
    if scope.watches(p) {
        let i = choose|i: int| 0 <= i < list.len() && #[trigger] globs::pattern_matches(list[i], p);
        assert(watch_pattern_matches(scope, i, p));
    }
    if exists|i: int|
        0 <= i < scope.watch_patterns@.len() && #[trigger] watch_pattern_matches(scope, i, p) {
        let i = choose|i: int|
            0 <= i < scope.watch_patterns@.len() && #[trigger] watch_pattern_matches(scope, i, p);
        assert(globs::pattern_matches(list[i], p));
    }
}

/// The error of patterns is that of the first one that is not a glob; a set holds
/// each pattern as it is, with `/` matched by nothing but itself.
pub proof fn law_first_wrong_pattern_counts(patterns: Seq<Seq<char>>, i: int)
    requires
        0 <= i < patterns.len(),
        forall|j: int| 0 <= j < i ==> globs::glob_error(#[trigger] patterns[j], true) is None,
    ensures
        globs::glob_error(patterns[i], true) is Some ==> globs::first_glob_error(patterns)
            == globs::glob_error(patterns[i], true),
        i == patterns.len() - 1 && globs::glob_error(patterns[i], true) is None
            ==> globs::first_glob_error(patterns) is None,
        globs::first_glob_error(Seq::empty()) is None,
        globs::path_globs(patterns).len() == patterns.len(),
        globs::path_globs(patterns)[i] == (patterns[i], true),
    decreases patterns.len(),
{
    let shorter = patterns.drop_last();
    if i < shorter.len() {
        assert forall|j: int| 0 <= j < i implies globs::glob_error(
            #[trigger] shorter[j],
            true,
        ) is None by {
            assert(shorter[j] == patterns[j]);
        }
        law_first_wrong_pattern_counts(shorter, i);
    } else if shorter.len() > 0 {
        assert forall|j: int| 0 <= j < shorter.len() implies globs::glob_error(
            #[trigger] shorter[j],
            true,
        ) is None by {
            assert(shorter[j] == patterns[j]);
        }
        law_first_wrong_pattern_counts(shorter, shorter.len() - 1);
    }
}

} // verus!
