//! Glob patterns, compiled and matched by the `globset` crate.
use vstd::prelude::*;

verus! {

#[verifier::external_type_specification]
#[verifier::external_body]
pub struct ExGlob(globset::Glob);

#[verifier::external_type_specification]
#[verifier::external_body]
pub struct ExGlobSetBuilder(globset::GlobSetBuilder);

#[verifier::external_type_specification]
#[verifier::external_body]
pub struct ExGlobSet(globset::GlobSet);

/// The pattern that a glob was made of, and whether only a literal `/` in it
/// matches a separator.
pub uninterp spec fn glob_source(glob: globset::Glob) -> (Seq<char>, bool);

/// The sources of the globs that were added to a builder, in order.
pub uninterp spec fn builder_globs(builder: globset::GlobSetBuilder) -> Seq<(Seq<char>, bool)>;

/// The sources of the globs that a set holds, in order.
pub uninterp spec fn set_globs(set: globset::GlobSet) -> Seq<(Seq<char>, bool)>;

/// Why a pattern is not a glob, or `None` where it is one.
pub uninterp spec fn glob_error(pattern: Seq<char>, literal_separator: bool) -> Option<Seq<char>>;

/// Whether globs can be compiled into one set.
pub uninterp spec fn glob_set_compiles(globs: Seq<(Seq<char>, bool)>) -> bool;

/// Whether a glob that belongs to a set matches a path.
pub uninterp spec fn glob_matches(
    pattern: Seq<char>,
    literal_separator: bool,
    path: Seq<u8>,
) -> bool;

/// Calls `GlobBuilder::build` on a pattern, with the option `literal_separator`
/// set as given. The glob comes from that pattern and that option; where the
/// pattern is refused, the text of the error comes back.
#[verifier::external_body]
fn parse_glob(pattern: &str, literal_separator: bool) -> (glob: Result<globset::Glob, String>)
    ensures
        match glob {
            Ok(g) => glob_error(pattern@, literal_separator) is None && glob_source(g) == (
                pattern@,
                literal_separator,
            ),
            Err(e) => glob_error(pattern@, literal_separator) == Some(e@),
        },
{
    globset::GlobBuilder::new(pattern).literal_separator(literal_separator).build().map_err(
        |e| e.to_string(),
    )
}

/// Calls `GlobSetBuilder::new`, which gives a builder without globs.
#[verifier::external_body]
fn new_builder() -> (builder: globset::GlobSetBuilder)
    ensures
        builder_globs(builder) == Seq::<(Seq<char>, bool)>::empty(),
{
    globset::GlobSetBuilder::new()
}

/// Calls `GlobSetBuilder::add`, which puts a glob behind those that were added
/// before.
#[verifier::external_body]
fn add_glob(builder: &mut globset::GlobSetBuilder, glob: globset::Glob)
    ensures
        builder_globs(*final(builder)) == builder_globs(*old(builder)).push(glob_source(glob)),
{
    builder.add(glob);
}

/// Calls `GlobSetBuilder::build`. The set holds the globs of the builder; where
/// they cannot be compiled, the text of an error comes back. Of several globs that
/// cannot be compiled, the one that the text speaks of depends on the order in
/// which a hash map is walked, so nothing is said of the text.
#[verifier::external_body]
fn compile_set(builder: &globset::GlobSetBuilder) -> (set: Result<globset::GlobSet, String>)
    ensures
        match set {
            Ok(s) => glob_set_compiles(builder_globs(*builder)) && set_globs(s) == builder_globs(
                *builder,
            ),
            Err(_) => !glob_set_compiles(builder_globs(*builder)),
        },
{
    builder.build().map_err(|e| e.to_string())
}

/// Why the regular expression of a glob is refused, or `None` where it is not.
pub uninterp spec fn glob_regex_error(
    pattern: Seq<char>,
    literal_separator: bool,
) -> Option<Seq<char>>;

/// Whether the matcher of a glob matches a path.
pub uninterp spec fn matcher_matches(
    pattern: Seq<char>,
    literal_separator: bool,
    path: Seq<u8>,
) -> bool;

/// Calls `regex_automata::meta::Builder::build` on the regular expression that
/// `Glob::regex` gives, with the settings with which `globset` itself compiles
/// it. The text of the error comes back where the expression is refused, which
/// is where it is too large or too deeply nested.
#[verifier::external_body]
fn regex_error(glob: &globset::Glob) -> (error: Option<String>)
    ensures
        crate::text::optional_text(error) == glob_regex_error(
            glob_source(*glob).0,
            glob_source(*glob).1,
        ),
{
    let syntax = regex_automata::util::syntax::Config::new().utf8(false).dot_matches_new_line(true);
    let config = regex_automata::meta::Regex::config()
        .utf8_empty(false)
        .nfa_size_limit(Some(10 * (1 << 20)))
        .hybrid_cache_capacity(10 * (1 << 20));
    let mut builder = regex_automata::meta::Regex::builder();
    builder.syntax(syntax).configure(config).build(glob.regex()).err().map(|e| e.to_string())
}

/// Calls `Glob::compile_matcher`, and `GlobMatcher::is_match_candidate` on the
/// candidate that `Candidate::from_bytes` makes of a path. Compiling panics where
/// the regular expression of the glob is refused.
#[verifier::external_body]
fn match_glob(glob: &globset::Glob, path: &[u8]) -> (yes: bool)
    requires
        glob_regex_error(glob_source(*glob).0, glob_source(*glob).1) is None,
    ensures
        yes == matcher_matches(glob_source(*glob).0, glob_source(*glob).1, path@),
{
    glob.compile_matcher().is_match_candidate(&globset::Candidate::from_bytes(path))
}

/// Whether a pattern is a glob in which only a literal `/` matches a separator,
/// has a matcher, and its matcher matches the path.
pub open spec fn pattern_matches(pattern: Seq<char>, path: Seq<u8>) -> bool {
    &&& glob_error(pattern, true) is None
    &&& glob_regex_error(pattern, true) is None
    &&& matcher_matches(pattern, true, path)
}

/// Matches a path against one pattern; see [`pattern_matches`].
pub fn matches_pattern(pattern: &str, path: &[u8]) -> (yes: bool)
    ensures
        yes == pattern_matches(pattern@, path@),
{
    match parse_glob(pattern, true) {
        Ok(glob) => match regex_error(&glob) {
            None => match_glob(&glob, path),
            Some(_) => false,
        },
        Err(_) => false,
    }
}

/// Whether one of the globs matches the path.
pub open spec fn any_glob_matches(globs: Seq<(Seq<char>, bool)>, path: Seq<u8>) -> bool {
    exists|i: int|
        0 <= i < globs.len() && #[trigger] glob_matches(globs[i].0, globs[i].1, path)
}

/// Calls `GlobSet::is_match_candidate` on the candidate that
/// `Candidate::from_bytes` makes of a path. It says whether any glob of the set
/// matches the path.
#[verifier::external_body]
pub(crate) fn set_matches(set: &globset::GlobSet, path: &[u8]) -> (yes: bool)
    ensures
        yes == (exists|i: int|
            0 <= i < set_globs(*set).len() && #[trigger] glob_matches(
                set_globs(*set)[i].0,
                set_globs(*set)[i].1,
                path@,
            )),
{
    set.is_match_candidate(&globset::Candidate::from_bytes(path))
}

/// Patterns as sources of globs in which only a literal `/` matches a separator.
pub open spec fn path_globs(patterns: Seq<Seq<char>>) -> Seq<(Seq<char>, bool)> {
    patterns.map_values(|p: Seq<char>| (p, true))
}

/// The error of the first pattern that is not a glob.
pub open spec fn first_glob_error(patterns: Seq<Seq<char>>) -> Option<Seq<char>>
    decreases patterns.len(),
{
    if patterns.len() == 0 {
        None
    } else {
        match first_glob_error(patterns.drop_last()) {
            Some(e) => Some(e),
            None => glob_error(patterns.last(), true),
        }
    }
}

/// Whether patterns are globs and can be compiled into one set.
pub open spec fn patterns_compile(patterns: Seq<Seq<char>>) -> bool {
    first_glob_error(patterns) is None && glob_set_compiles(path_globs(patterns))
}

/// Whether a text may be the error of patterns: that of the first pattern that is
/// not a glob or, where all are, any text if they cannot be compiled into one set.
pub open spec fn is_patterns_error(patterns: Seq<Seq<char>>, error: Seq<char>) -> bool {
    match first_glob_error(patterns) {
        Some(e) => error == e,
        None => !glob_set_compiles(path_globs(patterns)),
    }
}

proof fn lemma_first_error_stays(patterns: Seq<Seq<char>>, n: int)
    requires
        0 <= n <= patterns.len(),
        first_glob_error(patterns.take(n)) is Some,
    ensures
        first_glob_error(patterns) == first_glob_error(patterns.take(n)),
    decreases patterns.len() - n,
{
    if n < patterns.len() {
        assert(patterns.take(n + 1).drop_last() =~= patterns.take(n));
        lemma_first_error_stays(patterns, n + 1);
    } else {
        assert(patterns.take(n) =~= patterns);
    }
}

/// Compiles patterns into one set of globs in which only a literal `/` matches
/// a separator. The error is that of the first pattern that is not a glob, or
/// else one of the set; see [`is_patterns_error`].
pub fn compile_patterns(patterns: &Vec<String>) -> (set: Result<globset::GlobSet, String>)
    ensures
        match set {
            Ok(s) => patterns_compile(crate::text::texts(patterns@)) && set_globs(s)
                == path_globs(crate::text::texts(patterns@)),
            Err(e) => is_patterns_error(crate::text::texts(patterns@), e@),
        },
{
    let ghost all = crate::text::texts(patterns@);
    let mut builder = new_builder();
    let mut i: usize = 0;
    assert(builder_globs(builder) =~= path_globs(all.take(0)));
    while i < patterns.len()
        invariant
            i <= patterns@.len(),
            all == crate::text::texts(patterns@),
            first_glob_error(all.take(i as int)) is None,
            builder_globs(builder) == path_globs(all.take(i as int)),
        decreases patterns@.len() - i,
    {
        assert(all[i as int] == patterns@[i as int]@);
        assert(all.take(i + 1).drop_last() =~= all.take(i as int));
        match parse_glob(patterns[i].as_str(), true) {
            Ok(glob) => {
                add_glob(&mut builder, glob);
                assert(path_globs(all.take(i + 1)) =~= path_globs(all.take(i as int)).push(
                    (all[i as int], true),
                ));
            },
            Err(e) => {
                proof {
                    lemma_first_error_stays(all, i + 1);
                }
                return Err(e);
            },
        }
        i += 1;
    }
    assert(all.take(i as int) =~= all);
    compile_set(&builder)
}

} // verus!
