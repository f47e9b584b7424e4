use zapper::display::{extend_results, result_rows, DisplayMatch};
use zapper::index::{index_file, Index};
use zapper::path_map::PathMap;
use zapper::search::{
    char_column, find_all, find_next, search_index, search_line, source_offset, Match,
};

fn index_of(files: &[(&str, &str)]) -> Index {
    let mut map = PathMap::new();
    for (path, content) in files {
        map.insert(path.as_bytes().to_vec(), index_file(content, 0, 0));
    }
    Index { version: 1, root: b"/r".to_vec(), generated_at: 0, files: map }
}

fn places(matches: &[Match]) -> Vec<(String, usize, usize)> {
    matches
        .iter()
        .map(|m| (String::from_utf8(m.path.clone()).unwrap(), m.line_number, m.column))
        .collect()
}

fn place(path: &str, line: usize, column: usize) -> (String, usize, usize) {
    (path.to_string(), line, column)
}

#[test]
fn finds_every_place_in_order() {
    let index = index_of(&[
        ("/r/b.md", "one zap\nnothing\nzap zap"),
        ("/r/a.md", "the Zap"),
    ]);
    let found = search_index(&index, "zap", 200);
    assert_eq!(
        places(&found),
        vec![
            place("/r/a.md", 1, 5),
            place("/r/b.md", 1, 5),
            place("/r/b.md", 3, 1),
            place("/r/b.md", 3, 5),
        ]
    );
    assert_eq!(found[0].line, "the Zap");
}

#[test]
fn case_of_the_keyword_is_ignored() {
    let index = index_of(&[("/r/a.md", "Markdown MARKDOWN markdown")]);
    let lower = places(&search_index(&index, "markdown", 200));
    assert_eq!(lower, places(&search_index(&index, "MarkDown", 200)));
    assert_eq!(
        lower,
        vec![place("/r/a.md", 1, 1), place("/r/a.md", 1, 10), place("/r/a.md", 1, 19)]
    );
}

#[test]
fn column_points_at_the_keyword() {
    let line = "some Words and more words";
    let index = index_of(&[("/r/a.md", line)]);
    let found = search_index(&index, "WORDS", 200);
    assert_eq!(found.len(), 2);
    for m in &found {
        let piece = &line[m.column - 1..m.column - 1 + 5];
        assert!(piece.eq_ignore_ascii_case("words"));
    }
}

#[test]
fn limit_cuts_the_same_matches() {
    let index = index_of(&[("/r/a.md", "a a a\na"), ("/r/b.md", "a")]);
    let all = places(&search_index(&index, "a", 200));
    assert_eq!(all.len(), 5);
    for limit in 0..7 {
        let some = places(&search_index(&index, "a", limit));
        assert_eq!(some.len(), limit.min(5));
        assert_eq!(some, all[..some.len()].to_vec());
    }
}

#[test]
fn nothing_is_found_for_an_empty_keyword() {
    let index = index_of(&[("/r/a.md", "text")]);
    assert!(search_index(&index, "", 200).is_empty());
    assert!(search_index(&index, "absent", 200).is_empty());
    assert!(search_index(&index_of(&[]), "text", 200).is_empty());
}

#[test]
fn every_line_with_the_keyword_is_found() {
    let index = index_of(&[("/r/a.md", "x\nKey\ny\nmonkey\n"), ("/r/b.md", "keys")]);
    let lines: Vec<String> =
        search_index(&index, "key", 200).into_iter().map(|m| m.line).collect();
    assert_eq!(lines, vec!["Key", "monkey", "keys"]);
}

#[test]
fn occurrences_do_not_overlap() {
    let index = index_of(&[("/r/a.md", "aaaaa")]);
    assert_eq!(
        places(&search_index(&index, "aa", 200)),
        vec![place("/r/a.md", 1, 1), place("/r/a.md", 1, 3)]
    );
}

#[test]
fn columns_count_characters() {
    let index = index_of(&[("/r/a.md", "\u{dc}n\u{ef} \u{c4}PFEL")]);
    assert_eq!(
        places(&search_index(&index, "\u{e4}pfel", 200)),
        vec![place("/r/a.md", 1, 5)]
    );
}

#[test]
fn columns_hold_where_lower_case_is_longer() {
    // A capital I with a dot becomes two characters in lower case.
    let index = index_of(&[("/r/a.md", "\u{130}x")]);
    assert_eq!(places(&search_index(&index, "x", 200)), vec![place("/r/a.md", 1, 2)]);
}

#[test]
fn columns_are_counted_from_given_forms() {
    let forms = vec![vec!['i', '\u{307}'], vec!['x']];
    assert_eq!(source_offset("\u{130}x", &forms, 0), 0);
    assert_eq!(source_offset("\u{130}x", &forms, 2), 0);
    assert_eq!(source_offset("\u{130}x", &forms, 3), 2);
    assert_eq!(source_offset("\u{130}x", &forms, 4), 3);
    let mut found = Vec::new();
    let line = "\u{130}x".to_string();
    let full = search_line(&mut found, b"/a", 7, &line, "i\u{307}x", &forms, "x", 2);
    assert!(!full);
    let full = search_line(&mut found, b"/a", 8, &line, "i\u{307}x", &forms, "\u{307}", 2);
    assert!(full);
    assert_eq!(places(&found), vec![place("/a", 7, 2), place("/a", 8, 1)]);
}

#[test]
fn columns_grow_by_the_characters_between() {
    let line = "a\u{fc}\u{4e2d}\u{1f600}z";
    let ends: Vec<usize> = (0..=line.len()).filter(|i| line.is_char_boundary(*i)).collect();
    assert_eq!(char_column(line, 0), 1);
    for i in &ends {
        for j in ends.iter().filter(|j| *j >= i) {
            let between = line[*i..*j].chars().count();
            assert_eq!(char_column(line, *j), char_column(line, *i) + between);
        }
    }
}

#[test]
fn final_sigma_is_lowered_as_in_a_word() {
    let index = index_of(&[("/r/a.md", "\u{39f}\u{394}\u{39f}\u{3a3}")]);
    assert_eq!(
        places(&search_index(&index, "\u{3bf}\u{3c2}", 200)),
        vec![place("/r/a.md", 1, 3)]
    );
}

#[test]
fn find_all_gives_byte_positions() {
    assert_eq!(find_all("abcabc", "bc"), vec![1, 4]);
    assert_eq!(find_all("\u{fc}b\u{fc}", "\u{fc}"), vec![0, 3]);
    assert_eq!(find_all("aaa", "aa"), vec![0]);
    assert!(find_all("", "a").is_empty());
}

#[test]
fn find_next_starts_where_it_is_told() {
    assert_eq!(find_next(b"abab", b"ab", 0), Some(0));
    assert_eq!(find_next(b"abab", b"ab", 1), Some(2));
    assert_eq!(find_next(b"abab", b"ab", 3), None);
    assert_eq!(find_next(b"abab", b"", 4), Some(4));
}

#[test]
fn char_column_counts_from_one() {
    assert_eq!(char_column("a\u{fc}b", 0), 1);
    assert_eq!(char_column("a\u{fc}b", 3), 3);
    assert_eq!(char_column("a\u{fc}b", 4), 4);
}

fn result(path: &str, line_number: usize, column: usize, line: &str) -> DisplayMatch {
    DisplayMatch { path: path.to_string(), line_number, column, line: line.to_string() }
}

#[test]
fn row_has_four_fields() {
    let row = result("/full/path/file.md", 12, 8, "matching line text").to_row();
    assert_eq!(row, "/full/path/file.md\t12\t8\tmatching line text");
    let fields: Vec<&str> = row.splitn(4, '\t').collect();
    assert_eq!(fields, vec!["/full/path/file.md", "12", "8", "matching line text"]);
}

#[test]
fn rows_stop_at_the_limit() {
    let mut results = Vec::new();
    let index = index_of(&[("/r/a.md", "x\nx")]);
    extend_results(&mut results, search_index(&index, "x", 200));
    results.push(result("far:/r/c.md", 1, 1, "x"));
    assert_eq!(
        result_rows(&results, 2),
        vec!["/r/a.md\t1\t1\tx".to_string(), "/r/a.md\t2\t1\tx".to_string()]
    );
    assert_eq!(result_rows(&results, 9).len(), 3);
    assert_eq!(result_rows(&results, 9)[2], "far:/r/c.md\t1\t1\tx");
    assert!(result_rows(&results, 0).is_empty());
}

#[test]
fn path_that_is_not_text_is_repaired() {
    let shown = DisplayMatch::from(Match {
        path: b"/r/\xff.md".to_vec(),
        line_number: 1,
        column: 2,
        line: "l".to_string(),
    });
    assert_eq!(shown.path, "/r/\u{fffd}.md");
    assert_eq!((shown.line_number, shown.column), (1, 2));
}

#[test]
fn matches_of_an_ascii_line_are_apart() {
    let index = index_of(&[("/r/a.md", "ababab ab")]);
    let columns: Vec<usize> =
        search_index(&index, "AB", 200).into_iter().map(|m| m.column).collect();
    assert_eq!(columns, vec![1, 3, 5, 8]);
}

#[test]
fn column_points_at_the_lowered_keyword() {
    let line = "gr\u{dc}\u{df}e \u{130}\u{dc}\u{df}E";
    let index = index_of(&[("/r/a.md", line)]);
    let found = search_index(&index, "\u{fc}\u{df}e", 200);
    assert_eq!(places(&found), vec![place("/r/a.md", 1, 3), place("/r/a.md", 1, 8)]);
    for m in &found {
        let rest: String = line.chars().skip(m.column - 1).collect();
        assert!(rest.to_lowercase().starts_with("\u{fc}\u{df}e"));
    }
}
