use yoink::search::{build_candidates, Candidate, ContentHit, WalkedEntry};
use yoink::settings::{parse_settings, Settings};

fn settings_from(config: &str) -> Settings {
    parse_settings(config).expect("settings")
}

fn entry(rel_path: &str, is_dir: bool) -> WalkedEntry {
    WalkedEntry { rel_path: rel_path.to_string(), is_dir, is_symlink: false, dev: None }
}

fn hit(path: &str) -> ContentHit {
    ContentHit { path: path.to_string(), is_dir: false, dev: None }
}

fn paths_of(candidates: &[Candidate]) -> Vec<String> {
    candidates.iter().map(|candidate| candidate.path.clone()).collect()
}

#[test]
fn merges_path_and_content_matches() {
    let settings = settings_from(".git/**\nnode_modukes/**\n");
    let walked = vec![
        entry("example.py", false),
        entry("ejectReasonsList.csv", false),
        entry("subfolder_ejectReasons", true),
    ];
    let hits = vec![hit("example.py")];

    let candidates =
        build_candidates("ejectReasons", &walked, &hits, &settings, None).expect("build candidates");
    let mut seen_example = false;
    let mut seen_csv = false;
    let mut seen_dir = false;

    for candidate in candidates {
        if candidate.path == "example.py" {
            assert!(candidate.content_match);
            assert!(!candidate.path_match);
            seen_example = true;
        }
        if candidate.path == "ejectReasonsList.csv" {
            assert!(candidate.path_match);
            seen_csv = true;
        }
        if candidate.path == "subfolder_ejectReasons" {
            assert!(candidate.path_match);
            assert!(candidate.is_dir);
            seen_dir = true;
        }
    }

    assert!(seen_example && seen_csv && seen_dir);
}

#[test]
fn skips_hidden_paths_by_default() {
    let settings = settings_from("");
    let walked = vec![
        entry(".hidden", true),
        entry(".hidden/secret.txt", false),
        entry("visible.txt", false),
    ];
    let hits = vec![hit(".hidden/secret.txt"), hit("visible.txt")];

    let candidates =
        build_candidates("ejectReasons", &walked, &hits, &settings, None).expect("build candidates");
    let paths = paths_of(&candidates);

    assert!(paths.iter().any(|path| path == "visible.txt"));
    assert!(!paths.iter().any(|path| path.contains(".hidden")));
}

#[test]
fn allows_hidden_when_toggle_enabled() {
    let settings = settings_from("include_hidden=true\n");
    let walked = vec![entry(".hidden", true), entry(".hidden/secret.txt", false)];
    let hits = vec![hit(".hidden/secret.txt")];

    let candidates =
        build_candidates("ejectReasons", &walked, &hits, &settings, None).expect("build candidates");
    let paths = paths_of(&candidates);

    assert!(paths.iter().any(|path| path == ".hidden/secret.txt"));
}

#[test]
fn respects_yoinkignore_patterns() {
    let settings = settings_from("ignored_dir/**\n");
    let walked = vec![
        entry("ignored_dir", true),
        entry("ignored_dir/hit.txt", false),
        entry("kept.txt", false),
    ];
    let hits = vec![hit("ignored_dir/hit.txt"), hit("kept.txt")];

    let candidates =
        build_candidates("ejectReasons", &walked, &hits, &settings, None).expect("build candidates");
    let paths = paths_of(&candidates);

    assert!(paths.iter().any(|path| path == "kept.txt"));
    assert!(!paths.iter().any(|path| path.starts_with("ignored_dir/")));
}

#[test]
fn applies_builtin_default_ignores() {
    let settings = settings_from("");
    let walked = vec![
        entry(".git", true),
        entry(".git/ignored.txt", false),
        entry("node_modukes", true),
        entry("node_modukes/ignored.txt", false),
        entry("kept.txt", false),
    ];
    let hits = vec![
        hit(".git/ignored.txt"),
        hit("node_modukes/ignored.txt"),
        hit("kept.txt"),
    ];

    let candidates =
        build_candidates("ejectReasons", &walked, &hits, &settings, None).expect("build candidates");
    let paths = paths_of(&candidates);

    assert!(paths.iter().any(|path| path == "kept.txt"));
    assert!(!paths.iter().any(|path| path.starts_with(".git/")));
    assert!(!paths.iter().any(|path| path.starts_with("node_modukes/")));
}

#[test]
fn sorts_by_depth_then_alphabetical() {
    let settings = settings_from("");
    let walked = vec![
        entry("a", true),
        entry("a/deeper", true),
        entry("b", true),
        entry("b/deeper", true),
        entry("z_root.txt", false),
        entry("a/deeper/file1.txt", false),
        entry("b/deeper/file2.txt", false),
        entry("a_root.txt", false),
    ];
    let hits = Vec::new();

    let candidates = build_candidates("", &walked, &hits, &settings, None).expect("build candidates");
    let paths = paths_of(&candidates);

    let a_root_idx = paths.iter().position(|path| path == "a_root.txt").expect("a_root index");
    let z_root_idx = paths.iter().position(|path| path == "z_root.txt").expect("z_root index");
    let deep_idx = paths
        .iter()
        .position(|path| path == "a/deeper/file1.txt")
        .expect("deep index");

    assert!(a_root_idx < z_root_idx);
    assert!(z_root_idx < deep_idx);
}

#[test]
fn sorts_alphabetically_when_configured() {
    let settings = settings_from("sort_mode=alphabetical\n");
    let walked = vec![
        entry("a", true),
        entry("a/deeper", true),
        entry("z_root.txt", false),
        entry("a/deeper/file1.txt", false),
        entry("a_root.txt", false),
    ];
    let hits = Vec::new();

    let candidates = build_candidates("", &walked, &hits, &settings, None).expect("build candidates");
    let paths = paths_of(&candidates);

    let a_deep_idx = paths
        .iter()
        .position(|path| path == "a/deeper/file1.txt")
        .expect("a/deep index");
    let a_root_idx = paths.iter().position(|path| path == "a_root.txt").expect("a_root index");

    assert!(a_deep_idx < a_root_idx);
}

#[test]
fn depth_mode_orders_roots_before_nested() {
    let settings = settings_from("");
    let walked = vec![
        entry("a", true),
        entry("a/deeper", true),
        entry("b", true),
        entry("b/deeper", true),
        entry("z_root.txt", false),
        entry("a/deeper/file1.txt", false),
        entry("b/deeper/file2.txt", false),
        entry("a_root.txt", false),
    ];
    let hits = Vec::new();

    let candidates = build_candidates("", &walked, &hits, &settings, None).expect("build candidates");
    let paths = paths_of(&candidates);

    assert_eq!(
        paths,
        vec![
            "a".to_string(),
            "a_root.txt".to_string(),
            "b".to_string(),
            "z_root.txt".to_string(),
            "a/deeper".to_string(),
            "b/deeper".to_string(),
            "a/deeper/file1.txt".to_string(),
            "b/deeper/file2.txt".to_string(),
        ]
    );
}

#[test]
fn merge_is_idempotent_over_repeated_runs() {
    let settings = settings_from("");
    let walked = vec![
        entry("example.py", false),
        entry("ejectReasonsList.csv", false),
        entry("subfolder_ejectReasons", true),
    ];
    let hits = vec![hit("example.py"), hit("ejectReasonsList.csv")];

    let first =
        build_candidates("ejectReasons", &walked, &hits, &settings, None).expect("first run");
    let second =
        build_candidates("ejectReasons", &walked, &hits, &settings, None).expect("second run");

    assert_eq!(first.len(), second.len());
    for (a, b) in first.iter().zip(second.iter()) {
        assert_eq!(a.path, b.path);
        assert_eq!(a.is_dir, b.is_dir);
        assert_eq!(a.path_match, b.path_match);
        assert_eq!(a.content_match, b.content_match);
    }
    let unique: std::collections::BTreeSet<String> = paths_of(&first).into_iter().collect();
    assert_eq!(unique.len(), first.len());
}

#[test]
fn every_candidate_has_a_match_flag() {
    let settings = settings_from("");
    let walked = vec![
        entry("example.py", false),
        entry("ejectReasonsList.csv", false),
        entry("other.txt", false),
    ];
    let hits = vec![hit("example.py")];

    let candidates =
        build_candidates("ejectReasons", &walked, &hits, &settings, None).expect("build candidates");
    assert!(!candidates.is_empty());
    for candidate in &candidates {
        assert!(candidate.path_match || candidate.content_match);
    }
    assert!(!candidates.iter().any(|candidate| candidate.path == "other.txt"));
}

#[test]
fn invalid_regex_query_is_fatal() {
    let settings = settings_from("");
    let walked = vec![entry("a.txt", false)];
    let hits = Vec::new();

    let result = build_candidates("(", &walked, &hits, &settings, None);
    match result {
        Err(yoink::search::SearchError::InvalidQuery { pattern }) => {
            assert_eq!(pattern, "(");
        },
        _ => panic!("expected an invalid-query error"),
    }
}

#[test]
fn mount_boundaries_prune_directories() {
    let settings = settings_from("");
    let walked = vec![
        WalkedEntry {
            rel_path: "mnt".to_string(),
            is_dir: true,
            is_symlink: false,
            dev: Some(7),
        },
        WalkedEntry {
            rel_path: "local".to_string(),
            is_dir: true,
            is_symlink: false,
            dev: Some(3),
        },
    ];
    let hits = Vec::new();

    let candidates =
        build_candidates("", &walked, &hits, &settings, Some(3)).expect("build candidates");
    let paths = paths_of(&candidates);
    assert!(paths.iter().any(|path| path == "local"));
    assert!(!paths.iter().any(|path| path == "mnt"));
}

#[test]
fn symlinks_are_excluded_by_default() {
    let settings = settings_from("");
    let walked = vec![
        WalkedEntry {
            rel_path: "link.txt".to_string(),
            is_dir: false,
            is_symlink: true,
            dev: None,
        },
        entry("plain.txt", false),
    ];
    let hits = Vec::new();

    let candidates = build_candidates("", &walked, &hits, &settings, None).expect("build candidates");
    let paths = paths_of(&candidates);
    assert!(paths.iter().any(|path| path == "plain.txt"));
    assert!(!paths.iter().any(|path| path == "link.txt"));
}

#[test]
fn hidden_path_detection_checks_every_component() {
    assert!(yoink::search::is_hidden_path(".git"));
    assert!(yoink::search::is_hidden_path("a/.hidden/b"));
    assert!(yoink::search::is_hidden_path("a/b/.c"));
    assert!(!yoink::search::is_hidden_path("a/b/c"));
    assert!(!yoink::search::is_hidden_path("dot.file/inside"));
}

#[test]
fn path_depth_counts_components() {
    assert_eq!(yoink::search::path_depth("a.txt"), 1);
    assert_eq!(yoink::search::path_depth("a/b.txt"), 2);
    assert_eq!(yoink::search::path_depth("a/b/c"), 3);
    assert_eq!(yoink::search::path_depth(""), 0);
    assert_eq!(yoink::search::path_depth("a//b"), 2);
    assert_eq!(yoink::search::path_depth("a/"), 1);
}

#[test]
fn sort_orders_candidates_in_place() {
    let mut candidates = vec![
        Candidate { path: "b/x".to_string(), is_dir: false, path_match: true, content_match: false },
        Candidate { path: "z".to_string(), is_dir: false, path_match: true, content_match: false },
        Candidate { path: "a".to_string(), is_dir: true, path_match: true, content_match: false },
    ];
    yoink::search::sort_candidates(&mut candidates, yoink::settings::SortMode::Depth);
    let depth_paths = paths_of(&candidates);
    assert_eq!(depth_paths, vec!["a".to_string(), "z".to_string(), "b/x".to_string()]);

    yoink::search::sort_candidates(&mut candidates, yoink::settings::SortMode::Alphabetical);
    let alpha_paths = paths_of(&candidates);
    assert_eq!(alpha_paths, vec!["a".to_string(), "b/x".to_string(), "z".to_string()]);
}
