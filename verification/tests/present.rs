use yoink::content::Occurrence;
use yoink::patterns::Query;
use yoink::present::{
    build_search_entries, format_candidates, format_search_entries, highlight_query_matches,
    parse_selected_line, truncate_snippet, SearchEntry,
};
use yoink::search::Candidate;

fn candidate(path: &str, is_dir: bool, path_match: bool, content_match: bool) -> Candidate {
    Candidate { path: path.to_string(), is_dir, path_match, content_match }
}

#[test]
fn compact_tags_follow_the_match_flags() {
    let candidates = vec![
        candidate("p.txt", false, true, false),
        candidate("t.txt", false, false, true),
        candidate("b.txt", false, true, true),
        candidate("n.txt", false, false, false),
    ];
    let out = format_candidates(&candidates);
    assert_eq!(out, "PATH\tp.txt\nTEXT\tt.txt\nBOTH\tb.txt\nPATH\tn.txt\n");
}

#[test]
fn truncation_keeps_short_snippets_intact() {
    assert_eq!(truncate_snippet("short", 140), "short");
}

#[test]
fn truncation_cuts_long_snippets_with_an_ellipsis() {
    let long: String = std::iter::repeat('x').take(150).collect();
    let out = truncate_snippet(&long, 140);
    assert_eq!(out.chars().count(), 141);
    assert!(out.ends_with('…'));
    assert!(out.starts_with("xxx"));
}

#[test]
fn highlighting_wraps_every_match() {
    let q = Query::compile("b+").expect("regex");
    let out = highlight_query_matches("abba b", Some(&q));
    assert_eq!(out, "a\u{1b}[1;36mbb\u{1b}[0ma \u{1b}[1;36mb\u{1b}[0m");
}

#[test]
fn highlighting_without_a_query_changes_nothing() {
    let out = highlight_query_matches("plain\ttext", None);
    assert_eq!(out, "plain\ttext");
}

#[test]
fn entry_lines_carry_path_and_line_fields() {
    let entries = vec![
        SearchEntry { display: "a\tb".to_string(), path: "x.txt".to_string(), line: None },
        SearchEntry { display: "row".to_string(), path: "x.txt".to_string(), line: Some(12) },
    ];
    let out = format_search_entries(&entries);
    assert_eq!(out, "a    b\tx.txt\t\nrow\tx.txt\t12\n");
}

#[test]
fn selected_lines_split_back_into_fields() {
    assert_eq!(
        parse_selected_line("display\tsrc/x.rs\t12"),
        ("src/x.rs".to_string(), Some(12))
    );
    assert_eq!(parse_selected_line("display only"), (String::new(), None));
    assert_eq!(parse_selected_line("d\tp.txt\t  "), ("p.txt".to_string(), None));
    assert_eq!(parse_selected_line("d\tp.txt"), ("p.txt".to_string(), None));
}

#[test]
fn rich_rows_pair_headers_with_occurrences() {
    let candidates = vec![
        candidate("hit.txt", false, false, true),
        candidate("dir_hit", true, true, false),
        candidate("quiet.txt", false, false, false),
    ];
    let keys = vec!["hit.txt".to_string()];
    let groups = vec![vec![
        Occurrence { line: 3, column: 1, snippet: "first".to_string() },
        Occurrence { line: 12345, column: 2, snippet: "second".to_string() },
    ]];
    let entries = build_search_entries(&candidates, &keys, &groups, None);

    assert_eq!(entries.len(), 4);
    assert_eq!(entries[0].path, "hit.txt");
    assert_eq!(entries[0].line, None);
    assert_eq!(entries[0].display, "📄 hit.txt");

    assert_eq!(entries[1].line, Some(3));
    assert_eq!(entries[1].display, "\u{1b}[33m 2\u{1b}[0m   ↳     3  first");

    assert_eq!(entries[2].line, Some(12345));
    assert_eq!(entries[2].display, "     ↳ 12345  second");

    assert_eq!(entries[3].path, "dir_hit");
    assert_eq!(entries[3].line, None);
    assert_eq!(entries[3].display, "📁 dir_hit");
}

#[test]
fn rich_rows_highlight_matches_in_path_and_snippet() {
    let q = Query::compile("hit").expect("regex");
    let candidates = vec![candidate("hit.txt", false, true, true)];
    let keys = vec!["hit.txt".to_string()];
    let groups = vec![vec![Occurrence { line: 1, column: 4, snippet: "one hit here".to_string() }]];
    let entries = build_search_entries(&candidates, &keys, &groups, Some(&q));

    assert_eq!(entries.len(), 2);
    assert_eq!(entries[0].display, "📄 \u{1b}[1;36mhit\u{1b}[0m.txt");
    assert_eq!(
        entries[1].display,
        "\u{1b}[33m 1\u{1b}[0m   ↳    1  one \u{1b}[1;36mhit\u{1b}[0m here"
    );
}

#[test]
fn highlighting_handles_empty_matches() {
    let q = Query::compile("x*").expect("regex");
    let out = highlight_query_matches("ab", Some(&q));
    assert_eq!(
        out,
        "\u{1b}[1;36m\u{1b}[0ma\u{1b}[1;36m\u{1b}[0mb\u{1b}[1;36m\u{1b}[0m"
    );
}
