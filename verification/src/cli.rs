//! What the command line means before its options are read.
use crate::encoding;
use crate::text;
use vstd::prelude::*;
use vstd::slice::slice_to_vec;
use vstd::utf8;

verus! {

/// Whether an argument is the given word.
pub open spec fn is_word(arg: Seq<u8>, word: Seq<char>) -> bool {
    arg == utf8::encode_utf8(word)
}

/// Whether an argument asks for help or for the version.
pub open spec fn asks_for_help(arg: Seq<u8>) -> bool {
    ||| is_word(arg, "-h"@)
    ||| is_word(arg, "--help"@)
    ||| is_word(arg, "-V"@)
    ||| is_word(arg, "--version"@)
    ||| is_word(arg, "help"@)
}

/// Whether an argument is a command.
pub open spec fn is_command(arg: Seq<u8>) -> bool {
    ||| is_word(arg, "index"@)
    ||| is_word(arg, "search"@)
    ||| is_word(arg, "watch"@)
    ||| is_word(arg, "serve"@)
}

/// Whether an argument is text and starts with `prefix`.
pub open spec fn has_prefix(arg: Seq<u8>, prefix: Seq<char>) -> bool {
    utf8::valid_utf8(arg) && prefix.is_prefix_of(utf8::decode_utf8(arg))
}

/// Whether a command is missing that has to be filled in. Options are passed
/// over, two of them with their values; the first other argument decides. Where
/// there is none, the keyword comes from the input, if that is not a terminal.
pub open spec fn lacks_command(args: Seq<Seq<u8>>, stdin_is_terminal: bool) -> bool
    decreases args.len(),
{
    if args.len() == 0 {
        !stdin_is_terminal
    } else {
        let arg = args[0];
        if asks_for_help(arg) || is_command(arg) {
            false
        } else if is_word(arg, "--index"@) || is_word(arg, "--config"@) {
            if args.len() < 2 {
                !stdin_is_terminal
            } else {
                lacks_command(args.skip(2), stdin_is_terminal)
            }
        } else if has_prefix(arg, "--index="@) || has_prefix(arg, "--config="@) {
            lacks_command(args.drop_first(), stdin_is_terminal)
        } else if is_word(arg, "--"@) {
            args.len() > 1
        } else if has_prefix(arg, "-"@) {
            lacks_command(args.drop_first(), stdin_is_terminal)
        } else {
            true
        }
    }
}

/// The arguments with the command that is filled in where it is missing. The
/// first argument is the name of the program.
pub open spec fn completed_args(args: Seq<Seq<u8>>, stdin_is_terminal: bool) -> Seq<Seq<u8>> {
    let command = utf8::encode_utf8("search"@);
    if args.len() <= 1 {
        if stdin_is_terminal {
            args
        } else {
            args.push(command)
        }
    } else if lacks_command(args.skip(1), stdin_is_terminal) {
        args.insert(1, command)
    } else {
        args
    }
}

/// A keyword alone means a search for it: the command is filled in before an
/// argument that is neither a command nor an option nor a call for help,
/// whatever stands behind it.
pub proof fn law_search_is_the_default(
    program: Seq<u8>,
    keyword: Seq<u8>,
    rest: Seq<Seq<u8>>,
    stdin_is_terminal: bool,
)
    requires
        !asks_for_help(keyword),
        !is_command(keyword),
        !has_prefix(keyword, "-"@),
    ensures
        completed_args(seq![program, keyword] + rest, stdin_is_terminal) == seq![
            program,
            utf8::encode_utf8("search"@),
            keyword,
        ] + rest,
{
    let args = seq![program, keyword] + rest;
    let command = utf8::encode_utf8("search"@);
    let tail = args.skip(1);
    assert(tail[0] == keyword);
    lemma_dash_words();
    lemma_longer_prefix(keyword, "--index="@);
    lemma_longer_prefix(keyword, "--config="@);
    assert(args.insert(1, command) =~= seq![program, command, keyword] + rest);
}

/// Whoever writes a command gets that command.
pub proof fn law_command_stays(
    program: Seq<u8>,
    command: Seq<u8>,
    rest: Seq<Seq<u8>>,
    stdin_is_terminal: bool,
)
    requires
        is_command(command),
    ensures
        completed_args(seq![program, command] + rest, stdin_is_terminal) == seq![program, command]
            + rest,
{
    let args = seq![program, command] + rest;
    assert(args.skip(1)[0] == command);
}

proof fn lemma_dash_words()
    ensures
        has_prefix(utf8::encode_utf8("--index"@), "-"@),
        has_prefix(utf8::encode_utf8("--config"@), "-"@),
        has_prefix(utf8::encode_utf8("--"@), "-"@),
{
    reveal_strlit("-");
    reveal_strlit("--");
    reveal_strlit("--index");
    reveal_strlit("--config");
    utf8::encode_utf8_valid_utf8("--index"@);
    utf8::encode_utf8_decode_utf8("--index"@);
    utf8::encode_utf8_valid_utf8("--config"@);
    utf8::encode_utf8_decode_utf8("--config"@);
    utf8::encode_utf8_valid_utf8("--"@);
    utf8::encode_utf8_decode_utf8("--"@);
    assert("-"@ =~= "--index"@.subrange(0, 1));
    assert("-"@ =~= "--config"@.subrange(0, 1));
    assert("-"@ =~= "--"@.subrange(0, 1));
}

proof fn lemma_longer_prefix(arg: Seq<u8>, prefix: Seq<char>)
    requires
        prefix == "--index="@ || prefix == "--config="@,
    ensures
        has_prefix(arg, prefix) ==> has_prefix(arg, "-"@),
{
    reveal_strlit("-");
    reveal_strlit("--index=");
    reveal_strlit("--config=");
    let s = utf8::decode_utf8(arg);
    if has_prefix(arg, prefix) {
        assert(s.subrange(0, prefix.len() as int)[0] == s[0]);
        assert("-"@ =~= s.subrange(0, 1));
    }
}

fn equals(arg: &[u8], word: &str) -> (yes: bool)
    ensures
        yes == is_word(arg@, word@),
{
    text::same_bytes(arg, word.as_bytes())
}

/// Whether an argument asks for help or for the version.
pub fn is_help_or_version(arg: &[u8]) -> (yes: bool)
    ensures
        yes == asks_for_help(arg@),
{
    equals(arg, "-h") || equals(arg, "--help") || equals(arg, "-V") || equals(arg, "--version")
        || equals(arg, "help")
}

/// Whether an argument is a command.
pub fn is_known_command(arg: &[u8]) -> (yes: bool)
    ensures
        yes == is_command(arg@),
{
    equals(arg, "index") || equals(arg, "search") || equals(arg, "watch") || equals(arg, "serve")
}

/// Whether an argument is text and starts with `prefix`.
pub fn os_str_starts_with(value: &[u8], prefix: &str) -> (yes: bool)
    ensures
        yes == has_prefix(value@, prefix@),
{
    match encoding::decode_exact(value) {
        Some(s) => {
            proof {
                utf8::encode_utf8_valid_utf8(s@);
                utf8::encode_utf8_decode_utf8(s@);
            }
            let chars = text::chars_of(s);
            text::starts_with(chars.as_slice(), prefix)
        },
        None => false,
    }
}

/// The arguments in a list.
pub open spec fn arg_bytes(args: Seq<Vec<u8>>) -> Seq<Seq<u8>> {
    args.map_values(|a: Vec<u8>| a@)
}

/// Whether a command is missing in the arguments from `from` on; see
/// [`lacks_command`].
pub fn needs_default_search(
    args: &Vec<Vec<u8>>,
    from: usize,
    stdin_is_terminal: bool,
) -> (yes: bool)
    requires
        from <= args@.len(),
    ensures
        yes == lacks_command(arg_bytes(args@).skip(from as int), stdin_is_terminal),
{
    let ghost all = arg_bytes(args@);
    let n = args.len();
    let mut index: usize = from;
    while index < n
        invariant
            n == args@.len(),
            index <= n,
            all == arg_bytes(args@),
            lacks_command(all.skip(from as int), stdin_is_terminal) == lacks_command(
                all.skip(index as int),
                stdin_is_terminal,
            ),
        decreases n - index,
    {
        let arg = args[index].as_slice();
        let ghost tail = all.skip(index as int);
        assert(tail[0] == arg@);
        assert(tail.drop_first() =~= all.skip(index + 1));
        if is_help_or_version(arg) || is_known_command(arg) {
            return false;
        }
        if equals(arg, "--index") || equals(arg, "--config") {
            if n - index < 2 {
                return !stdin_is_terminal;
            }
            assert(tail.skip(2) =~= all.skip(index + 2));
            index += 2;
        } else if os_str_starts_with(arg, "--index=") || os_str_starts_with(arg, "--config=") {
            index += 1;
        } else if equals(arg, "--") {
            return n - index > 1;
        } else if os_str_starts_with(arg, "-") {
            index += 1;
        } else {
            return true;
        }
    }
    !stdin_is_terminal
}

/// Fills in the command where it is missing; see [`completed_args`].
pub fn default_search_args(args: Vec<Vec<u8>>, stdin_is_terminal: bool) -> (completed: Vec<Vec<u8>>)
    ensures
        arg_bytes(completed@) == completed_args(arg_bytes(args@), stdin_is_terminal),
{
    let ghost given = arg_bytes(args@);
    let command = slice_to_vec("search".as_bytes());
    let mut args = args;
    if args.len() <= 1 {
        if !stdin_is_terminal {
            args.push(command);
            assert(arg_bytes(args@) =~= given.push(command@));
        }
        return args;
    }
    if needs_default_search(&args, 1, stdin_is_terminal) {
        args.insert(1, command);
        assert(arg_bytes(args@) =~= given.insert(1, command@));
    }
    args
}

/// The keyword to search for: the argument, or else the input without the white
/// space around it. Where there is neither, there is nothing to search for.
pub fn resolve_keyword(keyword: Option<String>, input: Option<String>) -> (chosen: Option<String>)
    ensures
        text::optional_text(chosen) == (match (keyword, input) {
            (Some(k), _) => Some(k@),
            (None, Some(i)) => Some(text::trim(i@)),
            (None, None) => None,
        }),
{
    match (keyword, input) {
        (Some(k), _) => Some(k),
        (None, Some(i)) => {
            let chars = text::chars_of(i.as_str());
            Some(text::string_of(text::trimmed(chars.as_slice())))
        },
        (None, None) => None,
    }
}

/// The name of this host where none is configured: that of the environment as it
/// is, else that in the file of the host name without the white space around
/// it, else `localhost`. Empty names are passed over.
pub open spec fn host_label_of(
    environment: Option<Seq<char>>,
    file: Option<Seq<char>>,
) -> Seq<char> {
    match environment {
        Some(name) if name.len() > 0 => name,
        _ => match file {
            Some(contents) if text::trim(contents).len() > 0 => text::trim(contents),
            _ => "localhost"@,
        },
    }
}

/// The name of this host where none is configured; see [`host_label_of`].
pub fn default_host_label(environment: Option<String>, file: Option<String>) -> (label: String)
    ensures
        label@ == host_label_of(text::optional_text(environment), text::optional_text(file)),
{
    if let Some(name) = environment {
        if !name.as_str().is_empty() {
            return name;
        }
    }
    if let Some(contents) = file {
        let chars = text::chars_of(contents.as_str());
        let name = text::trimmed(chars.as_slice());
        if name.len() > 0 {
            return text::string_of(name);
        }
    }
    "localhost".to_owned()
}

/// Five words ask for help or for the version, and four are commands. No other
/// argument is one of these.
pub proof fn law_known_words(arg: Seq<u8>)
    ensures
        asks_for_help(arg) <==> seq![
            utf8::encode_utf8("-h"@),
            utf8::encode_utf8("--help"@),
            utf8::encode_utf8("-V"@),
            utf8::encode_utf8("--version"@),
            utf8::encode_utf8("help"@),
        ].contains(arg),
        is_command(arg) <==> seq![
            utf8::encode_utf8("index"@),
            utf8::encode_utf8("search"@),
            utf8::encode_utf8("watch"@),
            utf8::encode_utf8("serve"@),
        ].contains(arg),
{
    let help = seq![
        utf8::encode_utf8("-h"@),
        utf8::encode_utf8("--help"@),
        utf8::encode_utf8("-V"@),
        utf8::encode_utf8("--version"@),
        utf8::encode_utf8("help"@),
    ];
    let commands = seq![
        utf8::encode_utf8("index"@),
        utf8::encode_utf8("search"@),
        utf8::encode_utf8("watch"@),
        utf8::encode_utf8("serve"@),
    ];
    assert(help.contains(help[0]) && help.contains(help[1]) && help.contains(help[2])
        && help.contains(help[3]) && help.contains(help[4]));
    assert(commands.contains(commands[0]) && commands.contains(commands[1]) && commands.contains(
        commands[2],
    ) && commands.contains(commands[3]));
}

/// A text starts with a prefix exactly where it is the prefix and something behind
/// it.
pub proof fn law_prefix_of_argument(prefix: Seq<char>, rest: Seq<char>)
    ensures
        has_prefix(utf8::encode_utf8(prefix + rest), prefix),
        forall|arg: Seq<u8>| #[trigger]
            has_prefix(arg, prefix) ==> exists|tail: Seq<char>|
                arg == #[trigger] utf8::encode_utf8(prefix + tail),
{
    let whole = prefix + rest;
    utf8::encode_utf8_valid_utf8(whole);
    utf8::encode_utf8_decode_utf8(whole);
    assert(prefix =~= whole.subrange(0, prefix.len() as int));
    assert forall|arg: Seq<u8>| #[trigger] has_prefix(arg, prefix) implies exists|tail: Seq<char>|
        arg == #[trigger] utf8::encode_utf8(prefix + tail) by {
        let shown = utf8::decode_utf8(arg);
        utf8::decode_utf8_encode_utf8(arg);
        let tail = shown.skip(prefix.len() as int);
        assert(prefix + tail =~= shown) by {
            assert(shown =~= shown.subrange(0, prefix.len() as int) + tail);
        }
        assert(arg == utf8::encode_utf8(prefix + tail));
    }
}

/// Whether an argument is a global option and its value, with `=` between them.
pub open spec fn is_joined_option(arg: Seq<u8>, value: Seq<char>) -> bool {
    arg == utf8::encode_utf8("--index="@ + value) || arg == utf8::encode_utf8("--config="@ + value)
}

/// Whether arguments are global options with their values, each in one of its two
/// forms: the option and the value as two arguments, or with `=` in one.
pub open spec fn are_global_options(args: Seq<Seq<u8>>) -> bool
    decreases args.len(),
{
    if args.len() == 0 {
        true
    } else if args[0] == utf8::encode_utf8("--index"@) || args[0] == utf8::encode_utf8(
        "--config"@,
    ) {
        args.len() > 1 && are_global_options(args.skip(2))
    } else {
        (exists|value: Seq<char>| #[trigger] is_joined_option(args[0], value))
            && are_global_options(args.skip(1))
    }
}

proof fn lemma_words_differ(a: Seq<char>, b: Seq<char>)
    requires
        a != b,
    ensures
        utf8::encode_utf8(a) != utf8::encode_utf8(b),
{
    utf8::encode_utf8_decode_utf8(a);
    utf8::encode_utf8_decode_utf8(b);
}

proof fn lemma_option_is_no_word(option: Seq<char>)
    requires
        option.len() > 2,
        option[0] == '-',
        option[1] == '-',
        option[2] == 'i' || option[2] == 'c',
    ensures
        !asks_for_help(utf8::encode_utf8(option)),
        !is_command(utf8::encode_utf8(option)),
        option != "--"@,
{
    reveal_strlit("-h");
    reveal_strlit("--help");
    reveal_strlit("-V");
    reveal_strlit("--version");
    reveal_strlit("help");
    reveal_strlit("index");
    reveal_strlit("search");
    reveal_strlit("watch");
    reveal_strlit("serve");
    reveal_strlit("--");
    assert("--help"@[2] == 'h' && "--version"@[2] == 'v' && "help"@[0] == 'h');
    assert("index"@[0] == 'i' && "search"@[0] == 's' && "watch"@[0] == 'w' && "serve"@[0] == 's');
    assert("-h"@.len() == 2 && "-V"@.len() == 2 && "--"@.len() == 2);
    lemma_words_differ(option, "-h"@);
    lemma_words_differ(option, "--help"@);
    lemma_words_differ(option, "-V"@);
    lemma_words_differ(option, "--version"@);
    lemma_words_differ(option, "help"@);
    lemma_words_differ(option, "index"@);
    lemma_words_differ(option, "search"@);
    lemma_words_differ(option, "watch"@);
    lemma_words_differ(option, "serve"@);
}

proof fn lemma_global_options(
    options: Seq<Seq<u8>>,
    rest: Seq<Seq<u8>>,
    stdin_is_terminal: bool,
)
    requires
        are_global_options(options),
    ensures
        lacks_command(options + rest, stdin_is_terminal) == lacks_command(rest, stdin_is_terminal),
    decreases options.len(),
{
    let args = options + rest;
    reveal_strlit("--index");
    reveal_strlit("--config");
    reveal_strlit("--index=");
    reveal_strlit("--config=");
    lemma_option_is_no_word("--index"@);
    lemma_option_is_no_word("--config"@);
    if options.len() == 0 {
        assert(args =~= rest);
    } else if options[0] == utf8::encode_utf8("--index"@) || options[0] == utf8::encode_utf8(
        "--config"@,
    ) {
        lemma_global_options(options.skip(2), rest, stdin_is_terminal);
        assert(args.skip(2) =~= options.skip(2) + rest);
        assert(args[0] == options[0]);
    } else {
        let value = choose|value: Seq<char>| #[trigger] is_joined_option(options[0], value);
        lemma_option_is_no_word("--index="@ + value);
        lemma_option_is_no_word("--config="@ + value);
        law_prefix_of_argument("--index="@, value);
        law_prefix_of_argument("--config="@, value);
        lemma_global_options(options.skip(1), rest, stdin_is_terminal);
        assert(args.drop_first() =~= options.skip(1) + rest);
        assert(args[0] == options[0]);
    }
}

/// A command behind global options stays, whatever the options' values are: the
/// arguments come out unchanged. So does a call for help.
pub proof fn law_command_stays_behind_options(
    program: Seq<u8>,
    options: Seq<Seq<u8>>,
    command: Seq<u8>,
    rest: Seq<Seq<u8>>,
    stdin_is_terminal: bool,
)
    requires
        are_global_options(options),
        is_command(command) || asks_for_help(command),
    ensures
        ({
            let args = seq![program] + options + seq![command] + rest;
            completed_args(args, stdin_is_terminal) == args
        }),
{
    let args = seq![program] + options + seq![command] + rest;
    let tail = seq![command] + rest;
    assert(args.skip(1) =~= options + tail);
    lemma_global_options(options, tail, stdin_is_terminal);
    assert(tail[0] == command);
}

/// A keyword behind global options is searched for: the command is filled in
/// right behind the name of the program, and all else stays.
pub proof fn law_search_is_filled_in_before_options(
    program: Seq<u8>,
    options: Seq<Seq<u8>>,
    keyword: Seq<u8>,
    rest: Seq<Seq<u8>>,
    stdin_is_terminal: bool,
)
    requires
        are_global_options(options),
        !asks_for_help(keyword),
        !is_command(keyword),
        !has_prefix(keyword, "-"@),
    ensures
        completed_args(
            seq![program] + options + seq![keyword] + rest,
            stdin_is_terminal,
        ) == seq![program, utf8::encode_utf8("search"@)] + options + seq![keyword] + rest,
{
    let args = seq![program] + options + seq![keyword] + rest;
    let command = utf8::encode_utf8("search"@);
    let tail = seq![keyword] + rest;
    assert(args.skip(1) =~= options + tail);
    lemma_global_options(options, tail, stdin_is_terminal);
    assert(tail[0] == keyword);
    lemma_dash_words();
    lemma_longer_prefix(keyword, "--index="@);
    lemma_longer_prefix(keyword, "--config="@);
    assert(args.insert(1, command) =~= seq![program, command] + options + seq![keyword] + rest);
}

/// Any other option is passed over by itself: whether a command is missing is
/// decided by what follows it.
pub proof fn law_other_options_are_passed_over(
    option: Seq<char>,
    rest: Seq<Seq<u8>>,
    stdin_is_terminal: bool,
)
    requires
        option.len() > 0,
        option[0] == '-',
        !asks_for_help(utf8::encode_utf8(option)),
        option != "--"@,
        option != "--index"@,
        option != "--config"@,
    ensures
        lacks_command(seq![utf8::encode_utf8(option)] + rest, stdin_is_terminal) == lacks_command(
            rest,
            stdin_is_terminal,
        ),
{
    let arg = utf8::encode_utf8(option);
    let args = seq![arg] + rest;
    assert(args[0] == arg);
    assert(args.drop_first() =~= rest);
    reveal_strlit("-");
    reveal_strlit("index");
    reveal_strlit("search");
    reveal_strlit("watch");
    reveal_strlit("serve");
    assert("index"@[0] != '-' && "search"@[0] != '-' && "watch"@[0] != '-' && "serve"@[0] != '-');
    lemma_words_differ(option, "index"@);
    lemma_words_differ(option, "search"@);
    lemma_words_differ(option, "watch"@);
    lemma_words_differ(option, "serve"@);
    lemma_words_differ(option, "--"@);
    lemma_words_differ(option, "--index"@);
    lemma_words_differ(option, "--config"@);
    law_prefix_of_argument("-"@, option.drop_first());
    assert("-"@ + option.drop_first() =~= option);
}

/// Behind `--` the next argument is the keyword, if there is one. Where the
/// arguments end, also behind an option that lacks its value, the keyword comes
/// from the input unless that is a terminal.
pub proof fn law_end_of_options(rest: Seq<Seq<u8>>, stdin_is_terminal: bool)
    ensures
        lacks_command(seq![utf8::encode_utf8("--"@)] + rest, stdin_is_terminal) == (rest.len()
            > 0),
        lacks_command(Seq::<Seq<u8>>::empty(), stdin_is_terminal) == !stdin_is_terminal,
        lacks_command(seq![utf8::encode_utf8("--index"@)], stdin_is_terminal)
            == !stdin_is_terminal,
        lacks_command(seq![utf8::encode_utf8("--config"@)], stdin_is_terminal)
            == !stdin_is_terminal,
{
    reveal_strlit("--");
    reveal_strlit("--index");
    reveal_strlit("--config");
    reveal_strlit("--index=");
    reveal_strlit("--config=");
    lemma_option_is_no_word("--index"@);
    lemma_option_is_no_word("--config"@);
    let arg = utf8::encode_utf8("--"@);
    let args = seq![arg] + rest;
    assert(args[0] == arg);
    reveal_strlit("-h");
    reveal_strlit("--help");
    reveal_strlit("-V");
    reveal_strlit("--version");
    reveal_strlit("help");
    reveal_strlit("index");
    reveal_strlit("search");
    reveal_strlit("watch");
    reveal_strlit("serve");
    assert("-h"@[1] == 'h' && "-V"@[1] == 'V' && "--"@[1] == '-');
    assert("--"@.len() == 2 && "--help"@.len() == 6 && "--version"@.len() == 9 && "help"@.len()
        == 4 && "index"@.len() == 5 && "search"@.len() == 6 && "watch"@.len() == 5 && "serve"@.len()
        == 5 && "--index"@.len() == 7 && "--config"@.len() == 8);
    lemma_words_differ("--"@, "-h"@);
    lemma_words_differ("--"@, "--help"@);
    lemma_words_differ("--"@, "-V"@);
    lemma_words_differ("--"@, "--version"@);
    lemma_words_differ("--"@, "help"@);
    lemma_words_differ("--"@, "index"@);
    lemma_words_differ("--"@, "search"@);
    lemma_words_differ("--"@, "watch"@);
    lemma_words_differ("--"@, "serve"@);
    lemma_words_differ("--"@, "--index"@);
    lemma_words_differ("--"@, "--config"@);
    utf8::encode_utf8_decode_utf8("--"@);
}

/// Nothing is changed but that the command is filled in: right behind the name of
/// the program, or as the only argument.
pub proof fn law_only_the_command_is_filled_in(args: Seq<Seq<u8>>, stdin_is_terminal: bool)
    ensures
        ({
            let out = completed_args(args, stdin_is_terminal);
            let command = utf8::encode_utf8("search"@);
            ||| out == args
            ||| args.len() == 0 && out == seq![command]
            ||| args.len() > 0 && out == seq![args[0], command] + args.skip(1)
        }),
        args.len() <= 1 ==> (completed_args(args, stdin_is_terminal) == args) == stdin_is_terminal,
        args.len() > 1 ==> (completed_args(args, stdin_is_terminal) == args) == !lacks_command(
            args.skip(1),
            stdin_is_terminal,
        ),
{
    let out = completed_args(args, stdin_is_terminal);
    let command = utf8::encode_utf8("search"@);
    if args.len() == 0 {
        assert(args.push(command) =~= seq![command]);
    } else {
        if args.len() == 1 {
            assert(args.push(command) =~= seq![args[0], command] + args.skip(1));
        } else {
            assert(args.insert(1, command) =~= seq![args[0], command] + args.skip(1));
        }
    }
    assert(args.push(command).len() != args.len());
    assert(args.len() > 1 ==> args.insert(1, command).len() != args.len());
}

/// The name of this host is that of the environment if it is not empty, also where
/// white space stands around it; else that of the file without the white space
/// around it, if it is not blank; else `localhost`.
pub proof fn law_host_label(name: Seq<char>, file: Option<Seq<char>>)
    ensures
        name.len() > 0 ==> host_label_of(Some(name), file) == name,
        host_label_of(Some(Seq::empty()), file) == host_label_of(None, file),
        text::trim(name).len() > 0 ==> host_label_of(None, Some(name)) == text::trim(name),
        text::trim(name).len() == 0 ==> host_label_of(None, Some(name)) == "localhost"@,
        host_label_of(None, None) == "localhost"@,
{
}

} // verus!
