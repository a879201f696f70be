use code_context::config::RuntimeConfig;
use code_context::formatter::{build_nodes, join, render_line, shared_segments, split_segments, OutputGenerator};
use code_context::generate;
use code_context::scanner::{join_path, DirItem, Entry, ItemKind, Scanner};
use code_context::sorting::sort_by_path;

fn strings(items: &[&str]) -> Vec<String> {
    items.iter().map(|s| s.to_string()).collect()
}

fn config(content: &[&str], excluded: &[&str], tree: &[&str], tree_only: bool) -> RuntimeConfig {
    RuntimeConfig {
        include_patterns: strings(content),
        exclude: strings(excluded),
        include_in_tree: strings(tree),
        tree_only_output: tree_only,
    }
}

fn item(name: &str, kind: ItemKind) -> DirItem {
    DirItem { name: name.to_string(), kind }
}

fn file(path: &str, include_content: bool) -> Entry {
    Entry { path: path.to_string(), is_dir: false, include_content }
}

/// A directory tree held in memory: each directory's path with its listing.
fn project() -> Vec<(String, Vec<DirItem>)> {
    vec![
        (
            "".to_string(),
            vec![item("src", ItemKind::Directory), item("README.md", ItemKind::File)],
        ),
        (
            "src".to_string(),
            vec![item("main.rs", ItemKind::File), item("lib.rs", ItemKind::File)],
        ),
    ]
}

fn body_of(path: &str) -> Option<String> {
    match path {
        "src/main.rs" => Some("fn main() {}".to_string()),
        "src/lib.rs" => Some("pub mod app;".to_string()),
        "README.md" => Some("# readme".to_string()),
        _ => None,
    }
}

/// Walks the tree in memory and returns the entries and the directories read.
fn walk(tree: &Vec<(String, Vec<DirItem>)>, config: &RuntimeConfig) -> (Vec<Entry>, Vec<String>) {
    let mut scanner = match Scanner::new(config) {
        Ok(scanner) => scanner,
        Err(error) => panic!("{}", error.message()),
    };
    let mut read: Vec<String> = Vec::new();
    let mut steps = 0;
    while let Some(dir) = scanner.next_directory() {
        steps += 1;
        assert!(steps < 1000);
        let listing = tree.iter().find(|(path, _)| *path == dir);
        if let Some((_, items)) = listing {
            scanner.visit(&dir, items);
        }
        read.push(dir);
    }
    (scanner.finish(), read)
}

fn run(tree: &Vec<(String, Vec<DirItem>)>, config: RuntimeConfig) -> String {
    let (entries, _) = walk(tree, &config);
    let bodies: Vec<Option<String>> = entries
        .iter()
        .map(|e| if e.include_content { body_of(&e.path) } else { None })
        .collect();
    generate(config, &entries, &bodies)
}

fn paths(entries: &Vec<Entry>) -> Vec<String> {
    entries.iter().map(|e| e.path.clone()).collect()
}

#[test]
fn source_files_only() {
    let output = run(&project(), config(&["src/**/*.rs"], &[], &[], false));
    let expected = "<directory_structure>\n\
└── src/\n    ├── lib.rs\n    └── main.rs\n\
</directory_structure>\n\
<file path=\"src/lib.rs\">\npub mod app;\n</file>\n\
<file path=\"src/main.rs\">\nfn main() {}\n</file>\n";
    assert_eq!(output, expected);
    assert!(!output.contains("README.md"));
}

#[test]
fn readme_in_tree_only() {
    let output = run(&project(), config(&["src/**/*.rs"], &[], &["README.md"], false));
    let expected = "<directory_structure>\n\
├── README.md\n└── src/\n    ├── lib.rs\n    └── main.rs\n\
</directory_structure>\n\
<file path=\"src/lib.rs\">\npub mod app;\n</file>\n\
<file path=\"src/main.rs\">\nfn main() {}\n</file>\n";
    assert_eq!(output, expected);
    assert!(!output.contains("# readme"));
}

#[test]
fn excluded_file_disappears() {
    let output = run(&project(), config(&["src/**/*.rs"], &["src/lib.rs"], &[], false));
    let expected = "<directory_structure>\n\
└── src/\n    └── main.rs\n\
</directory_structure>\n\
<file path=\"src/main.rs\">\nfn main() {}\n</file>\n";
    assert_eq!(output, expected);
    assert!(!output.contains("lib.rs"));
}

#[test]
fn nothing_matches_gives_empty_output() {
    let output = run(&project(), config(&["**/*.py"], &[], &[], false));
    assert_eq!(output, "");
    let output = run(&project(), config(&["**/*.py"], &[], &[], true));
    assert_eq!(output, "");
}

#[test]
fn tree_only_output_has_no_contents() {
    let output = run(&project(), config(&["src/**/*.rs"], &[], &["README.md"], true));
    let expected = "<directory_structure>\n\
├── README.md\n└── src/\n    ├── lib.rs\n    └── main.rs\n\
</directory_structure>";
    assert_eq!(output, expected);
}

#[test]
fn running_twice_gives_the_same_bytes() {
    let first = run(&project(), config(&["**/*"], &[], &[], false));
    let second = run(&project(), config(&["**/*"], &[], &[], false));
    assert_eq!(first, second);
    assert!(!first.is_empty());
}

#[test]
fn listing_order_does_not_matter() {
    let mut shuffled = project();
    shuffled.reverse();
    for (_, items) in shuffled.iter_mut() {
        items.reverse();
    }
    let cfg = || config(&["src/**/*.rs"], &[], &["README.md"], false);
    assert_eq!(run(&project(), cfg()), run(&shuffled, cfg()));
}

#[test]
fn excluded_directory_is_never_read() {
    let tree = vec![
        (
            "".to_string(),
            vec![item("target", ItemKind::Directory), item("src", ItemKind::Directory)],
        ),
        ("target".to_string(), vec![item("out.rs", ItemKind::File)]),
        ("src".to_string(), vec![item("a.rs", ItemKind::File)]),
    ];
    let (entries, read) = walk(&tree, &config(&["**/*.rs"], &["target"], &[], false));
    assert_eq!(paths(&entries), strings(&["src/a.rs"]));
    assert_eq!(read, strings(&["", "src"]));
}

#[test]
fn unmatched_directory_is_still_read() {
    let tree = vec![
        ("".to_string(), vec![item("deep", ItemKind::Directory)]),
        ("deep".to_string(), vec![item("er", ItemKind::Directory)]),
        ("deep/er".to_string(), vec![item("x.rs", ItemKind::File)]),
    ];
    let (entries, read) = walk(&tree, &config(&["**/*.rs"], &[], &[], false));
    assert_eq!(paths(&entries), strings(&["deep/er/x.rs"]));
    assert_eq!(read, strings(&["", "deep", "deep/er"]));
    assert!(entries[0].include_content);
    assert!(!entries[0].is_dir);
}

#[test]
fn symlink_to_itself_is_a_leaf() {
    let tree = vec![
        (
            "".to_string(),
            vec![item("loop", ItemKind::Symlink), item("a.txt", ItemKind::File)],
        ),
        ("loop".to_string(), vec![item("loop", ItemKind::Symlink)]),
    ];
    let (entries, read) = walk(&tree, &config(&["*"], &[], &[], false));
    assert_eq!(paths(&entries), strings(&["a.txt", "loop"]));
    assert_eq!(read, strings(&[""]));
}

#[test]
fn a_new_walk_starts_at_the_root() {
    let mut scanner = match Scanner::new(&config(&["*"], &[], &[], false)) {
        Ok(scanner) => scanner,
        Err(_) => panic!("valid patterns were refused"),
    };
    assert_eq!(scanner.next_directory(), Some(String::new()));
    assert_eq!(scanner.next_directory(), None);
    assert!(scanner.finish().is_empty());
}

#[test]
fn a_walk_with_a_malformed_pattern_does_not_start() {
    match Scanner::new(&config(&["*"], &["abc[def"], &[], false)) {
        Ok(_) => panic!("a malformed pattern was accepted"),
        Err(error) => assert_eq!(error.pattern, "abc[def"),
    }
}

#[test]
fn join_path_puts_a_slash_below_the_root_only() {
    assert_eq!(join_path("", "a.rs"), "a.rs");
    assert_eq!(join_path("src", "a.rs"), "src/a.rs");
    assert_eq!(join_path("src/app", "mod.rs"), "src/app/mod.rs");
}

#[test]
fn sort_goes_by_code_points() {
    let entries = vec![
        file("src/b.rs", true),
        file("src.rs", true),
        file("Zeta", false),
        file("src/a.rs", true),
        file("alpha", true),
        file("src", false),
        file("é", true),
    ];
    let sorted = sort_by_path(&entries);
    assert_eq!(
        paths(&sorted),
        strings(&["Zeta", "alpha", "src", "src.rs", "src/a.rs", "src/b.rs", "é"])
    );
    assert!(!sorted[0].include_content);
    assert!(sorted[1].include_content);
}

#[test]
fn sort_keeps_entries_of_one_path_in_order() {
    let entries = vec![file("b", true), file("a", true), file("b", false), file("a", false)];
    let sorted = sort_by_path(&entries);
    assert_eq!(paths(&sorted), strings(&["a", "a", "b", "b"]));
    assert!(sorted[0].include_content && !sorted[1].include_content);
    assert!(sorted[2].include_content && !sorted[3].include_content);
    assert!(sort_by_path(&Vec::new()).is_empty());
}

#[test]
fn segments_are_split_at_slashes() {
    assert_eq!(split_segments("src/app/config.rs"), strings(&["src", "app", "config.rs"]));
    assert_eq!(split_segments("README.md"), strings(&["README.md"]));
    assert_eq!(split_segments(""), strings(&[""]));
    assert_eq!(split_segments("a//b/"), strings(&["a", "", "b", ""]));
    assert_eq!(split_segments("é/ü"), strings(&["é", "ü"]));
}

#[test]
fn shared_segments_counts_the_common_start() {
    assert_eq!(shared_segments(&strings(&["a", "b", "c"]), &strings(&["a", "b", "d"])), 2);
    assert_eq!(shared_segments(&strings(&["a"]), &strings(&["a", "b"])), 1);
    assert_eq!(shared_segments(&strings(&[]), &strings(&["a"])), 0);
    assert_eq!(shared_segments(&strings(&["x", "b"]), &strings(&["a", "b"])), 0);
}

#[test]
fn nodes_hold_each_directory_once() {
    let entries = vec![file("a/b/x", true), file("a/b/y", true), file("a/c", true), file("d", true)];
    let nodes = build_nodes(&entries);
    let got: Vec<(usize, String, bool)> =
        nodes.iter().map(|n| (n.depth, n.name.clone(), n.is_dir)).collect();
    let expected = vec![
        (0, "a".to_string(), true),
        (1, "b".to_string(), true),
        (2, "x".to_string(), false),
        (2, "y".to_string(), false),
        (1, "c".to_string(), false),
        (0, "d".to_string(), false),
    ];
    assert_eq!(got, expected);
    assert_eq!(render_line(&nodes, 2), "│   │   ├── x");
    assert_eq!(render_line(&nodes, 4), "│   └── c");
}

#[test]
fn tree_draws_guides_and_markers() {
    let entries = vec![
        file("a/b/x", true),
        file("a/b/y", true),
        file("a/c", true),
        file("d/e", true),
    ];
    let tree = OutputGenerator::generate_tree(&entries);
    let expected = "\
├── a/
│   ├── b/
│   │   ├── x
│   │   └── y
│   └── c
└── d/
    └── e";
    assert_eq!(tree, expected);
}

#[test]
fn tree_depth_is_path_depth() {
    let entries = vec![file("one/two/three/leaf.txt", true)];
    let tree = OutputGenerator::generate_tree(&entries);
    let expected = "\
└── one/
    └── two/
        └── three/
            └── leaf.txt";
    assert_eq!(tree, expected);
}

#[test]
fn tree_marks_directory_entries() {
    let entries = vec![
        Entry { path: "assets".to_string(), is_dir: true, include_content: false },
        file("assets/logo.png", false),
    ];
    let tree = OutputGenerator::generate_tree(&entries);
    assert_eq!(tree, "└── assets/\n    └── logo.png");
}

#[test]
fn tree_of_nothing_is_empty() {
    assert_eq!(OutputGenerator::generate_tree(&Vec::new()), "");
}

#[test]
fn join_puts_line_feeds_between_lines() {
    assert_eq!(join(&strings(&[])), "");
    assert_eq!(join(&strings(&["a"])), "a");
    assert_eq!(join(&strings(&["a", "", "b"])), "a\n\nb");
}

#[test]
fn content_skips_tree_only_and_unreadable_files() {
    let entries = vec![file("a.txt", true), file("b.bin", false), file("c.txt", true), file("d.txt", true)];
    let bodies = vec![
        Some("A".to_string()),
        Some("ignored".to_string()),
        None,
        Some("D\n".to_string()),
    ];
    let content = OutputGenerator::generate_content(&entries, &bodies);
    assert_eq!(
        content,
        "<file path=\"a.txt\">\nA\n</file>\n<file path=\"d.txt\">\nD\n\n</file>\n"
    );
}

#[test]
fn content_leaves_out_files_without_a_body() {
    let entries = vec![file("a.txt", true), file("b.txt", true)];
    let bodies = vec![Some("A".to_string())];
    let content = OutputGenerator::generate_content(&entries, &bodies);
    assert_eq!(content, "<file path=\"a.txt\">\nA\n</file>\n");
    assert_eq!(OutputGenerator::generate_content(&entries, &Vec::new()), "");
}

#[test]
fn full_output_wraps_the_tree_in_tags() {
    assert_eq!(
        OutputGenerator::format_full_output("TREE", "CONTENT"),
        "<directory_structure>\nTREE\n</directory_structure>\nCONTENT"
    );
    assert_eq!(
        OutputGenerator::format_tree_only("TREE"),
        "<directory_structure>\nTREE\n</directory_structure>"
    );
}

#[test]
fn generate_of_no_entries_is_empty() {
    assert_eq!(generate(config(&["*"], &[], &[], false), &Vec::new(), &Vec::new()), "");
}
