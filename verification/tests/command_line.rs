use zapper::cli::{
    default_host_label, default_search_args, is_help_or_version, is_known_command,
    needs_default_search, os_str_starts_with, resolve_keyword,
};

fn completed(args: &[&str], terminal: bool) -> Vec<String> {
    let given: Vec<Vec<u8>> = args.iter().map(|a| a.as_bytes().to_vec()).collect();
    default_search_args(given, terminal)
        .into_iter()
        .map(|a| String::from_utf8(a).unwrap())
        .collect()
}

#[test]
fn search_is_the_default_command() {
    assert_eq!(completed(&["zap", "keyword"], true), vec!["zap", "search", "keyword"]);
    assert_eq!(
        completed(&["zap", "a", "--limit", "3"], true),
        vec!["zap", "search", "a", "--limit", "3"]
    );
    assert_eq!(
        completed(&["zap", "--limit", "20"], false),
        vec!["zap", "search", "--limit", "20"]
    );
}

#[test]
fn command_stays_as_it_is() {
    for command in ["index", "search", "watch", "serve", "help", "-h", "--help", "-V", "--version"] {
        assert_eq!(completed(&["zap", command, "x"], false), vec!["zap", command, "x"]);
    }
    assert_eq!(
        completed(&["zap", "--index", "/i", "index"], true),
        vec!["zap", "--index", "/i", "index"]
    );
    assert_eq!(
        completed(&["zap", "--config=/c", "serve"], true),
        vec!["zap", "--config=/c", "serve"]
    );
}

#[test]
fn values_of_options_are_passed_over() {
    assert_eq!(
        completed(&["zap", "--index", "index", "word"], true),
        vec!["zap", "search", "--index", "index", "word"]
    );
    assert_eq!(
        completed(&["zap", "--index=/i", "word"], true),
        vec!["zap", "search", "--index=/i", "word"]
    );
}

#[test]
fn input_decides_where_no_argument_does() {
    assert_eq!(completed(&["zap"], true), vec!["zap"]);
    assert_eq!(completed(&["zap"], false), vec!["zap", "search"]);
    assert_eq!(completed(&[], false), vec!["search"]);
    assert_eq!(completed(&["zap", "--index"], true), vec!["zap", "--index"]);
    assert_eq!(completed(&["zap", "--index"], false), vec!["zap", "search", "--index"]);
    assert_eq!(completed(&["zap", "-x"], true), vec!["zap", "-x"]);
    assert_eq!(completed(&["zap", "--config", "c"], false), vec!["zap", "search", "--config", "c"]);
}

#[test]
fn two_dashes_need_a_keyword_behind_them() {
    assert_eq!(completed(&["zap", "--"], false), vec!["zap", "--"]);
    assert_eq!(completed(&["zap", "--", "-x"], true), vec!["zap", "search", "--", "-x"]);
}

#[test]
fn argument_that_is_not_text_is_a_keyword() {
    let args = vec![b"zap".to_vec(), b"-\xff".to_vec()];
    assert!(needs_default_search(&args, 1, true));
    assert!(!os_str_starts_with(b"-\xff", "-"));
    assert!(os_str_starts_with(b"--index=/i", "--index="));
    assert!(!os_str_starts_with(b"--inde", "--index="));
    assert!(os_str_starts_with("-\u{fc}".as_bytes(), "-"));
}

#[test]
fn words_are_known() {
    assert!(is_help_or_version(b"help") && !is_help_or_version(b"-v"));
    assert!(is_known_command(b"watch") && !is_known_command(b"Watch"));
}

fn text(s: &str) -> Option<String> {
    Some(s.to_string())
}

#[test]
fn keyword_comes_from_argument_or_input() {
    assert_eq!(resolve_keyword(text(" a "), text("b")), text(" a "));
    assert_eq!(resolve_keyword(None, text(" b c\n")), text("b c"));
    assert_eq!(resolve_keyword(None, None), None);
}

#[test]
fn host_label_has_a_default() {
    assert_eq!(default_host_label(text(" env "), text("file")), " env ");
    assert_eq!(default_host_label(text(""), text("desk\n")), "desk");
    assert_eq!(default_host_label(None, text(" \n")), "localhost");
    assert_eq!(default_host_label(None, None), "localhost");
}
