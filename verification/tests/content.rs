use yoink::content::{collect_occurrences, parse_file_list, parse_line_probe};

#[test]
fn file_list_lines_are_normalized() {
    let paths = parse_file_list("./a.txt\n\nb/c.txt\n././d.txt\n");
    assert_eq!(
        paths,
        vec!["a.txt".to_string(), "b/c.txt".to_string(), "d.txt".to_string()]
    );
}

#[test]
fn occurrences_are_grouped_and_ordered() {
    let output = "./a.txt:3:2:second hit\na.txt:1:5:\tfirst hit\t\nnot a record\nb.txt:2:1:other\n";
    let (keys, groups) = collect_occurrences(output);

    let a = keys.iter().position(|key| key == "a.txt").expect("a.txt group");
    let b = keys.iter().position(|key| key == "b.txt").expect("b.txt group");

    assert_eq!(groups[a].len(), 2);
    assert_eq!(groups[a][0].line, 1);
    assert_eq!(groups[a][0].column, 5);
    assert_eq!(groups[a][0].snippet, "first hit");
    assert_eq!(groups[a][1].line, 3);
    assert_eq!(groups[a][1].column, 2);
    assert_eq!(groups[a][1].snippet, "second hit");

    assert_eq!(groups[b].len(), 1);
    assert_eq!(groups[b][0].line, 2);
    assert_eq!(groups[b][0].snippet, "other");
}

#[test]
fn snippets_keep_their_own_separators() {
    let output = "a.txt:7:4:a:b:c\n";
    let (keys, groups) = collect_occurrences(output);
    assert_eq!(keys, vec!["a.txt".to_string()]);
    assert_eq!(groups[0][0].snippet, "a:b:c");
    assert_eq!(groups[0][0].column, 4);
}

#[test]
fn malformed_records_are_dropped_silently() {
    let output =
        "a.txt:x:1:bad line\nb.txt:1:y:bad column\nc.txt:1\nc.txt:1:2\nplain\nd.txt:2:3:good\n";
    let (keys, groups) = collect_occurrences(output);
    assert_eq!(keys, vec!["d.txt".to_string()]);
    assert_eq!(groups[0].len(), 1);
    assert_eq!(groups[0][0].snippet, "good");
}

#[test]
fn same_line_occurrences_order_by_column() {
    let output = "a.txt:5:9:later\na.txt:5:2:earlier\n";
    let (keys, groups) = collect_occurrences(output);
    assert_eq!(keys.len(), 1);
    assert_eq!(groups[0][0].column, 2);
    assert_eq!(groups[0][1].column, 9);
}

#[test]
fn line_probe_reads_the_first_line_number() {
    assert_eq!(parse_line_probe("34:foo bar\n48:baz\n"), Some(34));
    assert_eq!(parse_line_probe(""), None);
    assert_eq!(parse_line_probe("nonsense\n"), None);
}
