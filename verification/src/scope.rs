//! Which files are indexed and which directories are watched.
use crate::config::{copy_strings, ZapConfig};
use crate::encoding;
use crate::globs;
use crate::path;
use crate::places;
use crate::text;
use vstd::prelude::*;
use vstd::slice::slice_subrange;

verus! {

/// What is indexed and watched.
pub struct Scope {
    /// The directory below which files are looked for.
    pub root: Vec<u8>,
    /// The home directory that `~` stands for in patterns.
    pub home: Option<Vec<u8>>,
    /// Whether every Markdown file below the root is indexed.
    pub all: bool,
    /// The globs of the files that are indexed otherwise.
    pub included: globset::GlobSet,
    /// The patterns of the directories that are watched otherwise.
    pub watch_patterns: Vec<String>,
}

/// The names of the directories that are left out everywhere.
pub open spec fn is_excluded(name: Seq<char>) -> bool {
    ||| name == ".git"@
    ||| name == "target"@
    ||| name == "node_modules"@
    ||| name == ".cache"@
    ||| name == ".cargo"@
    ||| name == ".devdata"@
    ||| name == ".rustup"@
    ||| name == ".vim"@
    ||| name == ".venv"@
    ||| name == "vendor"@
    ||| name == "tmp"@
}

/// The lower-case form of an ASCII letter; every other byte as it is.
pub open spec fn lower_byte(b: u8) -> u8 {
    if 65 <= b <= 90 {
        (b + 32) as u8
    } else {
        b
    }
}

/// Bytes with their ASCII letters in lower case.
pub open spec fn lower_bytes(bytes: Seq<u8>) -> Seq<u8> {
    bytes.map_values(|b: u8| lower_byte(b))
}

/// Whether a file extension, in any case, is one of Markdown.
pub open spec fn is_markdown_extension(ext: Seq<u8>) -> bool {
    ||| lower_bytes(ext) == vstd::utf8::encode_utf8("md"@)
    ||| lower_bytes(ext) == vstd::utf8::encode_utf8("markdown"@)
    ||| lower_bytes(ext) == vstd::utf8::encode_utf8("mdown"@)
}

/// Whether a path names a Markdown file.
pub open spec fn is_markdown_path(p: Seq<u8>) -> bool {
    match path::extension(p) {
        Some(ext) => is_markdown_extension(ext),
        None => false,
    }
}

/// Whether no component of a path is excluded.
pub open spec fn is_watchable(p: Seq<u8>) -> bool {
    forall|i: int|
        0 <= i < path::components(p).len() ==> !is_excluded(
            encoding::lossy(#[trigger] path::components(p)[i]),
        )
}

/// A pattern as it is matched against whole paths: `~/` at its start is the
/// home directory where that is known, and any other relative pattern is
/// taken from the root.
pub open spec fn normalized(root: Seq<u8>, home: Option<Seq<u8>>, pattern: Seq<char>) -> Seq<char> {
    if "~/"@.is_prefix_of(pattern) && home is Some {
        encoding::lossy(path::joined(home->0, vstd::utf8::encode_utf8(pattern.skip(2))))
    } else if path::is_absolute(vstd::utf8::encode_utf8(pattern)) {
        pattern
    } else {
        encoding::lossy(path::joined(root, vstd::utf8::encode_utf8(pattern)))
    }
}

/// Patterns, normalized one by one.
pub open spec fn all_normalized(
    root: Seq<u8>,
    home: Option<Seq<u8>>,
    patterns: Seq<Seq<char>>,
) -> Seq<Seq<char>> {
    patterns.map_values(|p: Seq<char>| normalized(root, home, p))
}

/// A pattern below the root, as text.
pub open spec fn below(root: Seq<u8>, pattern: Seq<char>) -> Seq<char> {
    encoding::lossy(path::joined(root, vstd::utf8::encode_utf8(pattern)))
}

/// The patterns of the files that are indexed by default: Markdown files in
/// the root, in its directories, and anywhere below a `memo` in one of these.
pub open spec fn default_includes(root: Seq<u8>) -> Seq<Seq<char>> {
    seq![
        below(root, "*.md"@),
        below(root, "*.markdown"@),
        below(root, "*.mdown"@),
        below(root, "*/*.md"@),
        below(root, "*/*.markdown"@),
        below(root, "*/*.mdown"@),
        below(root, "*/memo/**/*.md"@),
        below(root, "*/memo/**/*.markdown"@),
        below(root, "*/memo/**/*.mdown"@),
    ]
}

/// The patterns of the directories that are watched by default.
pub open spec fn default_watches(root: Seq<u8>) -> Seq<Seq<char>> {
    seq![
        below(root, ""@),
        below(root, "*/"@),
        below(root, "*/memo/"@),
        below(root, "*/memo/**/"@),
    ]
}

/// The patterns of the files to index: the options, else the configuration,
/// else the default.
pub open spec fn chosen_includes(
    options: Seq<Seq<char>>,
    configured: Option<Vec<String>>,
    root: Seq<u8>,
) -> Seq<Seq<char>> {
    if options.len() > 0 {
        options
    } else {
        match configured {
            Some(list) => text::texts(list@),
            None => default_includes(root),
        }
    }
}

/// The patterns of the directories to watch: the configuration, else the
/// default.
pub open spec fn chosen_watches(configured: Option<Vec<String>>, root: Seq<u8>) -> Seq<Seq<char>> {
    match configured {
        Some(list) => text::texts(list@),
        None => default_watches(root),
    }
}

impl Scope {
    /// Whether the file under a path belongs into the index.
    pub open spec fn indexes(&self, p: Seq<u8>) -> bool {
        &&& is_markdown_path(p)
        &&& self.all || globs::any_glob_matches(globs::set_globs(self.included), p)
    }

    /// The watch patterns as they are matched against whole paths.
    pub open spec fn watch_globs(&self) -> Seq<Seq<char>> {
        all_normalized(
            self.root@,
            path::optional_bytes(self.home),
            text::texts(self.watch_patterns@),
        )
    }

    /// Whether a watch pattern that can be compiled matches the directory.
    pub open spec fn watches(&self, p: Seq<u8>) -> bool {
        exists|i: int|
            0 <= i < self.watch_globs().len() && #[trigger] globs::pattern_matches(
                self.watch_globs()[i],
                p,
            )
    }
}

/// What makes a scope: its root and home, whether it takes every Markdown file,
/// the patterns of the files, and the patterns of the directories.
pub open spec fn is_scope(
    scope: Scope,
    root: Seq<u8>,
    home: Option<Seq<u8>>,
    all: bool,
    includes: Seq<Seq<char>>,
    watches: Seq<Seq<char>>,
) -> bool {
    &&& scope.root@ == root
    &&& path::optional_bytes(scope.home) == home
    &&& scope.all == all
    &&& globs::set_globs(scope.included) == globs::path_globs(all_normalized(root, home, includes))
    &&& text::texts(scope.watch_patterns@) == watches
}

proof fn lemma_below_is_whole(root: Seq<u8>, home: Option<Seq<u8>>, pattern: Seq<char>)
    requires
        path::is_absolute(root),
        vstd::utf8::valid_utf8(root),
    ensures
        normalized(root, home, below(root, pattern)) == below(root, pattern),
{
    let tail = vstd::utf8::encode_utf8(pattern);
    let bytes = path::joined(root, tail);
    vstd::utf8::encode_utf8_valid_utf8(pattern);
    let slash = seq![path::SEPARATOR];
    assert(vstd::utf8::valid_utf8(slash)) by {
        assert(vstd::utf8::is_ascii_chars(seq!['/']));
        vstd::utf8::is_ascii_chars_encode_utf8(seq!['/']);
        assert(vstd::utf8::encode_utf8(seq!['/']) =~= slash);
        vstd::utf8::encode_utf8_valid_utf8(seq!['/']);
    }
    vstd::utf8::valid_utf8_concat(root, tail);
    vstd::utf8::valid_utf8_concat(root, slash);
    vstd::utf8::valid_utf8_concat(root + slash, tail);
    assert(root.push(path::SEPARATOR) =~= root + slash);
    assert(path::is_absolute(bytes));
    let whole = vstd::utf8::decode_utf8(bytes);
    vstd::utf8::decode_utf8_encode_utf8(bytes);
    reveal_strlit("~/");
    if "~/"@.is_prefix_of(whole) {
        assert(whole.subrange(0, 2)[0] == whole[0]);
        assert(whole =~= seq!['~'] + whole.drop_first());
        crate::search::lemma_encode_concat(seq!['~'], whole.drop_first());
        assert(vstd::utf8::is_ascii_chars(seq!['~']));
        vstd::utf8::is_ascii_chars_encode_utf8(seq!['~']);
        assert(vstd::utf8::encode_utf8(seq!['~'])[0] == '~' as u8);
    }
}

/// The default patterns are matched as they are: below an absolute root whose
/// path is text, normalizing leaves them unchanged.
pub proof fn law_default_patterns_are_whole(root: Seq<u8>, home: Option<Seq<u8>>)
    requires
        path::is_absolute(root),
        vstd::utf8::valid_utf8(root),
    ensures
        all_normalized(root, home, default_includes(root)) == default_includes(root),
        all_normalized(root, home, default_watches(root)) == default_watches(root),
{
    lemma_below_is_whole(root, home, "*.md"@);
    lemma_below_is_whole(root, home, "*.markdown"@);
    lemma_below_is_whole(root, home, "*.mdown"@);
    lemma_below_is_whole(root, home, "*/*.md"@);
    lemma_below_is_whole(root, home, "*/*.markdown"@);
    lemma_below_is_whole(root, home, "*/*.mdown"@);
    lemma_below_is_whole(root, home, "*/memo/**/*.md"@);
    lemma_below_is_whole(root, home, "*/memo/**/*.markdown"@);
    lemma_below_is_whole(root, home, "*/memo/**/*.mdown"@);
    lemma_below_is_whole(root, home, ""@);
    lemma_below_is_whole(root, home, "*/"@);
    lemma_below_is_whole(root, home, "*/memo/"@);
    lemma_below_is_whole(root, home, "*/memo/**/"@);
    assert(all_normalized(root, home, default_includes(root)) =~= default_includes(root));
    assert(all_normalized(root, home, default_watches(root)) =~= default_watches(root));
}

/// Whether a directory name is left out everywhere.
pub fn is_excluded_name(name: &str) -> (yes: bool)
    ensures
        yes == is_excluded(name@),
{
    text::same_text(name, ".git") || text::same_text(name, "target") || text::same_text(
        name,
        "node_modules",
    ) || text::same_text(name, ".cache") || text::same_text(name, ".cargo") || text::same_text(
        name,
        ".devdata",
    ) || text::same_text(name, ".rustup") || text::same_text(name, ".vim") || text::same_text(
        name,
        ".venv",
    ) || text::same_text(name, "vendor") || text::same_text(name, "tmp")
}

proof fn lemma_excluded_has_no_replacement(name: Seq<char>)
    requires
        is_excluded(name),
    ensures
        !name.contains('\u{fffd}'),
{
    reveal_strlit(".git");
    reveal_strlit("target");
    reveal_strlit("node_modules");
    reveal_strlit(".cache");
    reveal_strlit(".cargo");
    reveal_strlit(".devdata");
    reveal_strlit(".rustup");
    reveal_strlit(".vim");
    reveal_strlit(".venv");
    reveal_strlit("vendor");
    reveal_strlit("tmp");
}

/// Whether a walk goes on to an entry of this name. A name that is not valid
/// UTF-8 is never left out.
pub fn should_descend(name: &[u8]) -> (yes: bool)
    ensures
        yes == !is_excluded(encoding::lossy(name@)),
        !vstd::utf8::valid_utf8(name@) ==> yes,
{
    let shown = encoding::decode_lossy(name);
    proof {
        if is_excluded(shown@) {
            lemma_excluded_has_no_replacement(shown@);
        }
    }
    !is_excluded_name(shown.as_str())
}

/// Whether no component of a path is left out.
pub fn should_watch_path(p: &[u8]) -> (yes: bool)
    ensures
        yes == is_watchable(p@),
{
    let parts = path::split_path(p);
    let ghost all = path::components(p@);
    let mut i: usize = 0;
    while i < parts.len()
        invariant
            i <= parts@.len(),
            all == path::byte_lists(parts@),
            all == path::components(p@),
            forall|j: int| 0 <= j < i ==> !is_excluded(encoding::lossy(#[trigger] all[j])),
        decreases parts@.len() - i,
    {
        assert(all[i as int] == parts@[i as int]@);
        if !should_descend(parts[i].as_slice()) {
            return false;
        }
        i += 1;
    }
    true
}

fn lower_ascii(bytes: &[u8]) -> (lower: Vec<u8>)
    ensures
        lower@ == lower_bytes(bytes@),
{
    let mut lower: Vec<u8> = Vec::new();
    let mut i: usize = 0;
    while i < bytes.len()
        invariant
            i <= bytes@.len(),
            lower@ == lower_bytes(bytes@.take(i as int)),
        decreases bytes@.len() - i,
    {
        let b = bytes[i];
        let ghost before = lower@;
        lower.push(
            if 65 <= b && b <= 90 {
                b + 32
            } else {
                b
            },
        );
        assert(lower@ =~= lower_bytes(bytes@.take(i + 1)));
        i += 1;
    }
    assert(bytes@.take(i as int) =~= bytes@);
    lower
}

/// Whether a path names a Markdown file: its extension is `md`, `markdown` or
/// `mdown` in any case.
pub fn is_markdown(p: &[u8]) -> (yes: bool)
    ensures
        yes == is_markdown_path(p@),
{
    match path::path_extension(p) {
        Some(ext) => {
            let lower = lower_ascii(ext.as_slice());
            text::same_bytes(lower.as_slice(), "md".as_bytes()) || text::same_bytes(
                lower.as_slice(),
                "markdown".as_bytes(),
            ) || text::same_bytes(lower.as_slice(), "mdown".as_bytes())
        },
        None => false,
    }
}

/// Whether the file under a path belongs into the index; see [`Scope::indexes`].
pub fn is_indexed_markdown(scope: &Scope, p: &[u8]) -> (yes: bool)
    ensures
        yes == scope.indexes(p@),
{
    if !is_markdown(p) {
        return false;
    }
    scope.all || globs::set_matches(&scope.included, p)
}

/// Normalizes a pattern; see [`normalized`].
pub fn normalize_pattern(root: &[u8], home: &Option<Vec<u8>>, pattern: &str) -> (whole: String)
    ensures
        whole@ == normalized(root@, path::optional_bytes(*home), pattern@),
{
    let chars = text::chars_of(pattern);
    proof {
        reveal_strlit("~/");
    }
    if text::starts_with(chars.as_slice(), "~/") {
        if let Some(dir) = home {
            let rest = text::string_of(slice_subrange(chars.as_slice(), 2, chars.len()));
            assert(rest@ =~= pattern@.skip(2));
            let whole = path::join(dir.as_slice(), rest.as_str().as_bytes());
            return encoding::decode_lossy(whole.as_slice());
        }
    }
    let bytes = pattern.as_bytes();
    if bytes.len() > 0 && bytes[0] == path::SEPARATOR {
        text::string_of(chars.as_slice())
    } else {
        let whole = path::join(root, bytes);
        encoding::decode_lossy(whole.as_slice())
    }
}

fn normalize_all(root: &[u8], home: &Option<Vec<u8>>, patterns: &Vec<String>) -> (whole: Vec<
    String,
>)
    ensures
        text::texts(whole@) == all_normalized(
            root@,
            path::optional_bytes(*home),
            text::texts(patterns@),
        ),
{
    let ghost all = all_normalized(root@, path::optional_bytes(*home), text::texts(patterns@));
    let mut whole: Vec<String> = Vec::new();
    let mut i: usize = 0;
    while i < patterns.len()
        invariant
            i <= patterns@.len(),
            all == all_normalized(
                root@,
                path::optional_bytes(*home),
                text::texts(patterns@),
            ),
            text::texts(whole@) == all.take(i as int),
        decreases patterns@.len() - i,
    {
        let ghost before = whole@;
        let pattern = normalize_pattern(root, home, patterns[i].as_str());
        assert(pattern@ == all[i as int]);
        whole.push(pattern);
        assert(text::texts(whole@) =~= text::texts(before).push(pattern@));
        i += 1;
    }
    assert(all.take(i as int) =~= all);
    whole
}

fn join_text(root: &[u8], pattern: &str) -> (whole: String)
    ensures
        whole@ == below(root@, pattern@),
{
    let joined = path::join(root, pattern.as_bytes());
    encoding::decode_lossy(joined.as_slice())
}

/// The patterns of the files that are indexed by default; see
/// [`default_includes`].
pub fn default_include_patterns(root: &[u8]) -> (patterns: Vec<String>)
    ensures
        text::texts(patterns@) == default_includes(root@),
{
    let mut patterns: Vec<String> = Vec::new();
    patterns.push(join_text(root, "*.md"));
    patterns.push(join_text(root, "*.markdown"));
    patterns.push(join_text(root, "*.mdown"));
    patterns.push(join_text(root, "*/*.md"));
    patterns.push(join_text(root, "*/*.markdown"));
    patterns.push(join_text(root, "*/*.mdown"));
    patterns.push(join_text(root, "*/memo/**/*.md"));
    patterns.push(join_text(root, "*/memo/**/*.markdown"));
    patterns.push(join_text(root, "*/memo/**/*.mdown"));
    assert(text::texts(patterns@) =~= default_includes(root@));
    patterns
}

/// The patterns of the directories that are watched by default; see
/// [`default_watches`].
pub fn default_watch_patterns(root: &[u8]) -> (patterns: Vec<String>)
    ensures
        text::texts(patterns@) == default_watches(root@),
{
    let mut patterns: Vec<String> = Vec::new();
    patterns.push(join_text(root, ""));
    patterns.push(join_text(root, "*/"));
    patterns.push(join_text(root, "*/memo/"));
    patterns.push(join_text(root, "*/memo/**/"));
    assert(text::texts(patterns@) =~= default_watches(root@));
    patterns
}

/// Compiles the patterns of the files to index; the error is the text that
/// says which pattern is wrong.
pub fn build_glob_set(
    root: &[u8],
    home: &Option<Vec<u8>>,
    patterns: &Vec<String>,
) -> (set: Result<globset::GlobSet, String>)
    ensures
        ({
            let whole = all_normalized(
                root@,
                path::optional_bytes(*home),
                text::texts(patterns@),
            );
            match set {
                Ok(s) => globs::patterns_compile(whole) && globs::set_globs(s)
                    == globs::path_globs(whole),
                Err(e) => globs::is_patterns_error(whole, e@),
            }
        }),
{
    let whole = normalize_all(root, home, patterns);
    globs::compile_patterns(&whole)
}

/// Whether every Markdown file is taken: the option or the configuration says so.
pub open spec fn takes_all(option: bool, configured: Option<bool>) -> bool {
    option || configured == Some(true)
}

/// What comes of making a scope: the scope, or the error of the patterns of the
/// files to index.
pub open spec fn is_scope_result(
    result: Result<Scope, String>,
    root: Seq<u8>,
    home: Option<Seq<u8>>,
    all: bool,
    includes: Seq<Seq<char>>,
    watches: Seq<Seq<char>>,
) -> bool {
    let whole = all_normalized(root, home, includes);
    match result {
        Ok(scope) => globs::patterns_compile(whole) && is_scope(
            scope,
            root,
            home,
            all,
            includes,
            watches,
        ),
        Err(e) => globs::is_patterns_error(whole, e@),
    }
}

/// The scope below a root for a user with the given home directory. The error
/// is that of the patterns of the files to index.
pub fn scope_in_home(
    root: Vec<u8>,
    home: Option<Vec<u8>>,
    all: bool,
    include_patterns: Vec<String>,
    config: &ZapConfig,
) -> (scope: Result<Scope, String>)
    ensures
        is_scope_result(
            scope,
            root@,
            path::optional_bytes(home),
            takes_all(all, config.all),
            chosen_includes(text::texts(include_patterns@), config.include_patterns, root@),
            chosen_watches(config.watch_patterns, root@),
        ),
{
    let all = all || match config.all {
        Some(b) => b,
        None => false,
    };
    let includes = if include_patterns.len() == 0 {
        match &config.include_patterns {
            Some(list) => copy_strings(list),
            None => default_include_patterns(root.as_slice()),
        }
    } else {
        include_patterns
    };
    let watch_patterns = match &config.watch_patterns {
        Some(list) => copy_strings(list),
        None => default_watch_patterns(root.as_slice()),
    };
    match build_glob_set(root.as_slice(), &home, &includes) {
        Ok(included) => Ok(Scope { root, home, all, included, watch_patterns }),
        Err(e) => Err(e),
    }
}

/// The scope below a root for this user: what [`scope_in_home`] gives for the
/// home directory that the machine reports.
pub fn make_scope(
    root: Vec<u8>,
    all: bool,
    include_patterns: Vec<String>,
    config: &ZapConfig,
) -> (scope: Result<Scope, String>)
    ensures
        exists|home: Option<Seq<u8>>|
            #[trigger] is_scope_result(
                scope,
                root@,
                home,
                takes_all(all, config.all),
                chosen_includes(text::texts(include_patterns@), config.include_patterns, root@),
                chosen_watches(config.watch_patterns, root@),
            ),
{
    scope_in_home(root, places::home_dir(), all, include_patterns, config)
}

/// The watch patterns of a scope as they are matched against whole paths.
pub fn watch_patterns_of(scope: &Scope) -> (whole: Vec<String>)
    ensures
        text::texts(whole@) == scope.watch_globs(),
{
    normalize_all(scope.root.as_slice(), &scope.home, &scope.watch_patterns)
}

/// Whether a watch pattern of the scope matches a directory. A pattern that
/// cannot be compiled matches nothing. See [`Scope::watches`].
pub fn is_configured_watch_directory(scope: &Scope, p: &[u8]) -> (yes: bool)
    ensures
        yes == scope.watches(p@),
{
    let ghost all = scope.watch_globs();
    let mut i: usize = scope.watch_patterns.len();
    // It does not matter which pattern matches, so the last one is tried first.
    while i > 0
        invariant
            i <= scope.watch_patterns@.len(),
            all == scope.watch_globs(),
            all.len() == scope.watch_patterns@.len(),
            forall|j: int|
                i <= j < all.len() ==> !#[trigger] globs::pattern_matches(all[j], p@),
        decreases i,
    {
        i -= 1;
        let pattern = normalize_pattern(
            scope.root.as_slice(),
            &scope.home,
            scope.watch_patterns[i].as_str(),
        );
        assert(pattern@ == all[i as int]);
        if globs::matches_pattern(pattern.as_str(), p) {
            assert(globs::pattern_matches(all[i as int], p@));
            return true;
        }
    }
    false
}

} // verus!
