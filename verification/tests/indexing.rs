use zapper::config::ZapConfig;
use zapper::index::{
    build_index, collect_file_state, equal_states, index_file, index_states, system_time_to_unix,
    temporary_path, FileState, IndexedFile, Walk,
};
use zapper::path::{join, path_extension, place_paths, replace_extension, split_path, Placement};
use zapper::path_map::PathMap;
use zapper::scope::{
    default_include_patterns, default_watch_patterns, is_configured_watch_directory,
    is_excluded_name, is_indexed_markdown, is_markdown, make_scope, normalize_pattern,
    scope_in_home, should_descend, should_watch_path, watch_patterns_of, Scope,
};
use zapper::search::search_index;
use zapper::watch::{
    should_rebuild, should_rebuild_for_event_path, watch_configured, watch_new_directory,
    EventPath, Polling, WatchAction,
};

fn strings(list: &[&str]) -> Vec<String> {
    list.iter().map(|s| s.to_string()).collect()
}

fn scope(all: bool, config: &ZapConfig) -> Scope {
    scope_in_home(b"/root".to_vec(), Some(b"/home/u".to_vec()), all, Vec::new(), config)
        .ok()
        .unwrap()
}

#[test]
fn markdown_is_told_by_its_extension() {
    for p in ["a.md", "/x/B.MD", "c.Markdown", "d.mdown", "..md", "a.md/", "a.md/."] {
        assert!(is_markdown(p.as_bytes()), "{}", p);
    }
    for p in ["", ".md", "md", "a.txt", "a.md.bak", "a.md/..", "a.mdx", "a."] {
        assert!(!is_markdown(p.as_bytes()), "{}", p);
    }
    assert!(!is_markdown(b"a.m\xff"));
}

#[test]
fn extension_is_that_of_the_standard_library() {
    for p in ["", "/", ".", "..", "a", ".a", "a.b", "a.b.c", "..b", "x/a.b/", "x/a.b/.", "a.", "/a.b/.."] {
        let expected = std::path::Path::new(p).extension().map(|e| e.to_str().unwrap().as_bytes().to_vec());
        assert_eq!(path_extension(p.as_bytes()), expected, "{}", p);
    }
}

#[test]
fn components_are_those_of_the_standard_library() {
    for p in ["", "/", "//a//b/", "./a/./b", "a/../b", "../..", ".", "/./x", "a/."] {
        let expected: Vec<Vec<u8>> = std::path::Path::new(p)
            .components()
            .map(|c| c.as_os_str().to_str().unwrap().as_bytes().to_vec())
            .collect();
        assert_eq!(split_path(p.as_bytes()), expected, "{}", p);
    }
}

#[test]
fn order_is_that_of_the_standard_library() {
    let paths = ["", "/", ".", "..", "a", "a/b", "a.b", "a-b", "/a", "/a/", "/a/b", "/a b", "./a", "b", "/./a"];
    for a in paths {
        for b in paths {
            let place = match place_paths(a.as_bytes(), b.as_bytes()) {
                Placement::Before => std::cmp::Ordering::Less,
                Placement::Same => std::cmp::Ordering::Equal,
                Placement::After => std::cmp::Ordering::Greater,
            };
            assert_eq!(place, std::path::Path::new(a).cmp(std::path::Path::new(b)), "{} {}", a, b);
        }
    }
}

#[test]
fn extension_is_replaced_as_by_the_standard_library() {
    for p in ["", "/", "index.json", "/d/index.json", "index", "/d.x/i", "/d/i.a.b", ".hidden", "d/i.json/", "d/i.json/.", "..", "d/..", "a./"] {
        let expected = std::path::Path::new(p).with_extension("json.tmp");
        assert_eq!(replace_extension(p.as_bytes(), b"json.tmp"), expected.to_str().unwrap().as_bytes(), "{}", p);
    }
    assert_eq!(temporary_path(b"/d/index.json"), b"/d/index.json.tmp".to_vec());
}

#[test]
fn temporary_file_lies_beside_the_index() {
    let index = split_path(b"/d/e/index.json");
    let temporary = split_path(&temporary_path(b"/d/e/index.json"));
    assert_eq!(temporary[..temporary.len() - 1], index[..index.len() - 1]);
}

#[test]
fn paths_are_joined_as_by_the_standard_library() {
    for base in ["", "/", "/a", "/a/"] {
        for tail in ["", "b", "/b", "b/c", "./b"] {
            let expected = std::path::Path::new(base).join(tail);
            assert_eq!(join(base.as_bytes(), tail.as_bytes()), expected.to_str().unwrap().as_bytes());
        }
    }
}

#[test]
fn some_directories_are_left_out() {
    for name in [".git", "target", "node_modules", ".cache", ".cargo", ".devdata", ".rustup", ".vim", ".venv", "vendor", "tmp"] {
        assert!(is_excluded_name(name));
        assert!(!should_descend(name.as_bytes()));
    }
    assert!(!is_excluded_name("Target") && should_descend(b"src") && should_descend(b""));
    assert!(should_descend(b"tmp\xff"));
    assert!(should_watch_path(b"/a/b"));
    assert!(!should_watch_path(b"/a/tmp/b"));
    assert!(should_watch_path(b"/a/tmp2/b"));
}

#[test]
fn default_patterns_lie_below_the_root() {
    assert_eq!(
        default_include_patterns(b"/root"),
        strings(&[
            "/root/*.md",
            "/root/*.markdown",
            "/root/*.mdown",
            "/root/*/*.md",
            "/root/*/*.markdown",
            "/root/*/*.mdown",
            "/root/*/memo/**/*.md",
            "/root/*/memo/**/*.markdown",
            "/root/*/memo/**/*.mdown",
        ])
    );
    assert_eq!(
        default_watch_patterns(b"/root"),
        strings(&["/root/", "/root/*/", "/root/*/memo/", "/root/*/memo/**/"])
    );
}

#[test]
fn default_patterns_are_matched_as_they_are() {
    for pattern in default_include_patterns(b"/root") {
        assert_eq!(normalize_pattern(b"/root", &Some(b"/home/u".to_vec()), &pattern), pattern);
    }
    assert_eq!(watch_patterns_of(&scope(false, &ZapConfig::default())), default_watch_patterns(b"/root"));
}

#[test]
fn patterns_are_normalized() {
    let home = Some(b"/home/u".to_vec());
    assert_eq!(normalize_pattern(b"/root", &home, "~/n/*.md"), "/home/u/n/*.md");
    assert_eq!(normalize_pattern(b"/root", &home, "n/*.md"), "/root/n/*.md");
    assert_eq!(normalize_pattern(b"/root", &home, "/n/*.md"), "/n/*.md");
    assert_eq!(normalize_pattern(b"/root", &home, "~x"), "/root/~x");
    assert_eq!(normalize_pattern(b"/root", &None, "~/n"), "/root/~/n");
    assert_eq!(normalize_pattern(b"/r\xff", &home, "n"), "/r\u{fffd}/n");
}

#[test]
fn default_scope_takes_notes_and_memos() {
    let scope = scope(false, &ZapConfig::default());
    for p in ["/root/a.md", "/root/x/a.markdown", "/root/x/memo/a.md", "/root/x/memo/y/z/a.mdown"] {
        assert!(is_indexed_markdown(&scope, p.as_bytes()), "{}", p);
    }
    for p in ["/root/x/y/a.md", "/a.md", "/root/a.txt", "/root/a.MD", "/root/memo/x/y/a.md"] {
        assert!(!is_indexed_markdown(&scope, p.as_bytes()), "{}", p);
    }
}

#[test]
fn scope_of_all_takes_every_markdown_file() {
    let scope = scope(true, &ZapConfig::default());
    assert!(is_indexed_markdown(&scope, b"/root/x/y/z/A.MD"));
    assert!(!is_indexed_markdown(&scope, b"/root/a.txt"));
    let configured = ZapConfig { all: Some(true), ..ZapConfig::default() };
    assert!(self::scope(false, &configured).all);
}

#[test]
fn options_come_before_the_configuration() {
    let config = ZapConfig {
        include_patterns: Some(strings(&["~/n/*.md"])),
        watch_patterns: Some(strings(&["n", "["])),
        ..ZapConfig::default()
    };
    let configured = scope(false, &config);
    assert!(is_indexed_markdown(&configured, b"/home/u/n/a.md"));
    assert!(!is_indexed_markdown(&configured, b"/root/a.md"));
    let chosen = scope_in_home(b"/root".to_vec(), None, false, strings(&["z/*.md"]), &config).ok().unwrap();
    assert!(is_indexed_markdown(&chosen, b"/root/z/a.md"));
    assert!(!is_indexed_markdown(&chosen, b"/home/u/n/a.md"));
    // A watch pattern that cannot be compiled matches nothing.
    assert!(is_configured_watch_directory(&configured, b"/root/n"));
    assert!(!is_configured_watch_directory(&configured, b"/root/["));
    assert!(!is_configured_watch_directory(&configured, b"/root/n/m"));
}

#[test]
fn watch_pattern_is_matched_on_the_whole_path() {
    let config = ZapConfig { watch_patterns: Some(strings(&["*."])), ..ZapConfig::default() };
    let dotted = scope(false, &config);
    assert!(is_configured_watch_directory(&dotted, b"/root/a."));
    assert!(is_configured_watch_directory(&dotted, b"/root/.."));
    assert!(!is_configured_watch_directory(&dotted, b"/root/a"));
}

#[test]
fn watch_pattern_that_is_too_large_matches_nothing() {
    let large = "?".repeat(2_000_000);
    let deep = format!("{}a{}", "{".repeat(300), "}".repeat(300));
    let config = ZapConfig {
        watch_patterns: Some(vec![large, deep, "n".to_string()]),
        ..ZapConfig::default()
    };
    let scope = scope(false, &config);
    assert!(is_configured_watch_directory(&scope, b"/root/n"));
    assert!(!is_configured_watch_directory(&scope, b"/root/a"));
}

#[test]
fn patterns_that_do_not_compile_together_are_reported() {
    let deep = |end: &str| format!("{}a{}{}", "{".repeat(300), "}".repeat(300), end);
    let patterns = vec![deep(".md"), deep(".txt")];
    let error = scope_in_home(b"/root".to_vec(), None, false, patterns, &ZapConfig::default())
        .err()
        .unwrap();
    assert!(!error.is_empty());
    // A pattern that is not a glob is reported before.
    let patterns = vec![deep(".md"), "a[".to_string()];
    let error = scope_in_home(b"/root".to_vec(), None, false, patterns, &ZapConfig::default())
        .err()
        .unwrap();
    assert!(error.contains("/root/a["), "{}", error);
}

#[test]
fn every_change_is_seen_by_polling() {
    let scope = scope(true, &ZapConfig::default());
    let mut walk: Walk<IndexedFile> = Walk::start(&scope);
    walk.meet(&scope, b"/root/a.md", true);
    walk.store(index_file("x", 6, 1));
    let polling = Polling::start(&build_index(&scope, walk, 0));
    assert!(!polling.has_changed(&states(&[("/root/a.md", 6, 1)])));
    assert!(polling.has_changed(&states(&[("/root/a.md", 7, 1)])));
    assert!(polling.has_changed(&states(&[("/root/a.md", 6, 2)])));
    assert!(polling.has_changed(&states(&[("/root/a.md", 6, 1), ("/root/b.md", 0, 0)])));
    assert!(polling.has_changed(&states(&[])));
}

#[test]
fn wrong_pattern_is_reported() {
    let error = scope_in_home(b"/root".to_vec(), None, false, strings(&["ok", "a["]), &ZapConfig::default())
        .err()
        .unwrap();
    assert!(error.contains("/root/a["), "{}", error);
}

#[test]
fn scope_of_this_user_has_the_given_root() {
    let scope = make_scope(b"/root".to_vec(), false, Vec::new(), &ZapConfig::default()).ok().unwrap();
    assert_eq!(scope.root, b"/root".to_vec());
    assert!(is_indexed_markdown(&scope, b"/root/a.md"));
}

#[test]
fn lines_of_a_file_are_kept() {
    let file = index_file("# A\r\n\ntext\n", 7, 12);
    assert_eq!((file.modified, file.size), (7, 12));
    assert_eq!(file.lines, strings(&["# A", "", "text"]));
    assert!(index_file("", 0, 0).lines.is_empty());
}

#[test]
fn time_before_the_epoch_counts_as_its_start() {
    assert_eq!(system_time_to_unix(Some(5)), 5);
    assert_eq!(system_time_to_unix(None), 0);
}

#[test]
fn walk_stores_what_belongs_into_the_index() {
    let scope = scope(false, &ZapConfig::default());
    let mut walk: Walk<IndexedFile> = Walk::start(&scope);
    assert!(!walk.meet(&scope, b"/root", false));
    assert!(walk.meet(&scope, b"/root/b.md", true));
    walk.store(index_file("b", 1, 1));
    assert!(walk.meet(&scope, b"/root/unreadable.md", true));
    assert!(walk.meet(&scope, b"/root/a.md", true));
    walk.store(index_file("a", 2, 2));
    assert!(!walk.meet(&scope, b"/root/x.md", false));
    walk.store(index_file("not stored", 3, 3));
    assert!(!walk.meet(&scope, b"/root/a.txt", true));
    assert!(walk.meet(&scope, b"/root/./b.md", true));
    walk.store(index_file("again", 4, 4));
    let index = build_index(&scope, walk, 99);
    assert_eq!((index.version, index.generated_at), (1, 99));
    assert_eq!(index.root, b"/root".to_vec());
    assert_eq!(index.files.len(), 2);
    assert_eq!(index.files.entry(0).path, b"/root/a.md".to_vec());
    assert_eq!(index.files.entry(1).path, b"/root/b.md".to_vec());
    assert_eq!(index.files.entry(1).value.lines, strings(&["again"]));
}

fn states(list: &[(&str, u64, u64)]) -> PathMap<FileState> {
    let mut map = PathMap::new();
    for (path, modified, size) in list {
        map.insert(path.as_bytes().to_vec(), FileState { modified: *modified, size: *size });
    }
    map
}

#[test]
fn states_are_compared_by_path() {
    let a = states(&[("/a", 1, 2), ("/b", 3, 4)]);
    assert!(equal_states(&a, &states(&[("/b", 3, 4), ("/a/", 1, 2)])));
    assert!(!equal_states(&a, &states(&[("/a", 1, 2)])));
    assert!(!equal_states(&a, &states(&[("/a", 1, 2), ("/b", 3, 5)])));
    assert!(!equal_states(&a, &states(&[("/a", 1, 2), ("/c", 3, 4)])));
    assert!(equal_states(&states(&[]), &states(&[])));
}

#[test]
fn map_keeps_order_and_replaces() {
    let mut map = states(&[("/b", 1, 1), ("/a", 2, 2), ("/b/c", 3, 3)]);
    map.insert(b"/b/".to_vec(), FileState { modified: 9, size: 9 });
    let paths: Vec<Vec<u8>> = (0..map.len()).map(|i| map.entry(i).path.clone()).collect();
    assert_eq!(paths, vec![b"/a".to_vec(), b"/b".to_vec(), b"/b/c".to_vec()]);
    assert_eq!(map.entry(1).value, FileState { modified: 9, size: 9 });
}

#[test]
fn polling_rebuilds_only_after_a_change() {
    let scope = scope(true, &ZapConfig::default());
    let mut walk: Walk<IndexedFile> = Walk::start(&scope);
    let mut seen: Walk<FileState> = Walk::start(&scope);
    for (p, time) in [("/root/b.md", 5), ("/root/a.md", 6)] {
        assert!(walk.meet(&scope, p.as_bytes(), true));
        walk.store(index_file("x", time, 1));
    }
    for (p, time) in [("/root/a.md", 6), ("/root/b.md", 5)] {
        assert!(seen.meet(&scope, p.as_bytes(), true));
        seen.store(FileState { modified: time, size: 1 });
    }
    let index = build_index(&scope, walk, 0);
    let mut polling = Polling::start(&index);
    let now = collect_file_state(seen);
    assert!(equal_states(&now, &index_states(&index)));
    assert!(!polling.has_changed(&now));
    let changed = states(&[("/root/a.md", 6, 1), ("/root/b.md", 5, 2)]);
    assert!(polling.has_changed(&changed));
    polling.rebuilt(None);
    assert!(polling.has_changed(&changed));
    let mut walk: Walk<IndexedFile> = Walk::start(&scope);
    walk.meet(&scope, b"/root/a.md", true);
    walk.store(index_file("x", 6, 1));
    polling.rebuilt(Some(&build_index(&scope, walk, 1)));
    assert!(polling.has_changed(&changed));
    assert!(!polling.has_changed(&states(&[("/root/a.md", 6, 1)])));
}

#[test]
fn new_directories_are_watched() {
    let everything = scope(true, &ZapConfig::default());
    assert_eq!(watch_new_directory(&everything, b"/root/n", true), WatchAction::Tree);
    assert_eq!(watch_new_directory(&everything, b"/root/n", false), WatchAction::Nothing);
    assert_eq!(watch_new_directory(&everything, b"/root/.git/n", true), WatchAction::Nothing);
    let config = ZapConfig { watch_patterns: Some(strings(&["*"])), ..ZapConfig::default() };
    let some = scope(false, &config);
    assert_eq!(watch_new_directory(&some, b"/root/n", true), WatchAction::Directory);
    assert_eq!(watch_new_directory(&some, b"/root/n/m", true), WatchAction::Nothing);
}

#[test]
fn changes_that_matter_rebuild_the_index() {
    let config = ZapConfig { watch_patterns: Some(strings(&["*"])), ..ZapConfig::default() };
    let some = scope(false, &config);
    assert!(should_rebuild_for_event_path(&some, b"/root/n", true));
    assert!(!should_rebuild_for_event_path(&some, b"/root/n/m", true));
    assert!(should_rebuild_for_event_path(&some, b"/root/a.md", false));
    assert!(!should_rebuild_for_event_path(&some, b"/root/a.txt", false));
    let everything = scope(true, &ZapConfig::default());
    assert!(should_rebuild_for_event_path(&everything, b"/x", true));
    let event = |p: &str| EventPath { path: p.as_bytes().to_vec(), is_dir: false };
    assert!(should_rebuild(&some, &vec![event("/root/a.txt"), event("/root/a.md")]));
    assert!(!should_rebuild(&some, &vec![event("/root/a.txt")]));
    assert!(!should_rebuild(&some, &Vec::new()));
}

#[test]
fn found_directories_are_collected_once() {
    let mut dirs = PathMap::new();
    watch_configured(&mut dirs, b"/r/b".to_vec(), true, None);
    watch_configured(&mut dirs, b"/r/link".to_vec(), true, Some(b"/r/b".to_vec()));
    watch_configured(&mut dirs, b"/r/a".to_vec(), true, Some(b"/r/a".to_vec()));
    watch_configured(&mut dirs, b"/r/file".to_vec(), false, None);
    watch_configured(&mut dirs, b"/r/tmp/x".to_vec(), true, Some(b"/r/x".to_vec()));
    let paths: Vec<Vec<u8>> = (0..dirs.len()).map(|i| dirs.entry(i).path.clone()).collect();
    assert_eq!(paths, vec![b"/r/a".to_vec(), b"/r/b".to_vec()]);
}

#[test]
fn what_was_read_is_found() {
    let scope = scope(false, &ZapConfig::default());
    let mut walk: Walk<IndexedFile> = Walk::start(&scope);
    for (p, content) in [
        ("/root/b.md", "first\nsecond Word"),
        ("/root/deep/er/a.md", "word"),
        ("/root/a.md", "a word"),
    ] {
        if walk.meet(&scope, p.as_bytes(), true) {
            walk.store(index_file(content, 0, 0));
        }
    }
    let index = build_index(&scope, walk, 0);
    let found: Vec<(Vec<u8>, usize, usize)> = search_index(&index, "word", 200)
        .into_iter()
        .map(|m| (m.path, m.line_number, m.column))
        .collect();
    assert_eq!(found, vec![(b"/root/a.md".to_vec(), 1, 3), (b"/root/b.md".to_vec(), 2, 8)]);
    assert!(found.iter().all(|(p, _, _)| is_indexed_markdown(&scope, p)));
}
