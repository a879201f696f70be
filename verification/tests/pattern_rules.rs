use code_context::config::RuntimeConfig;
use code_context::patterns::{PatternSet, Selection};

fn strings(items: &[&str]) -> Vec<String> {
    items.iter().map(|s| s.to_string()).collect()
}

fn config(content: &[&str], excluded: &[&str], tree: &[&str]) -> RuntimeConfig {
    RuntimeConfig {
        include_patterns: strings(content),
        exclude: strings(excluded),
        include_in_tree: strings(tree),
        tree_only_output: false,
    }
}

fn set(content: &[&str], excluded: &[&str], tree: &[&str]) -> PatternSet {
    match PatternSet::new(&config(content, excluded, tree)) {
        Ok(set) => set,
        Err(error) => panic!("{}", error.message()),
    }
}

#[test]
fn content_pattern_selects_for_content() {
    let set = set(&["src/**/*.rs"], &[], &[]);
    assert_eq!(set.classify("src/main.rs"), Selection::Content);
    assert_eq!(set.classify("src/app/config.rs"), Selection::Content);
    assert_eq!(set.classify("README.md"), Selection::Unselected);
    assert_eq!(set.classify("src"), Selection::Unselected);
}

#[test]
fn exclusion_dominates_selection() {
    let set = set(&["src/**/*.rs"], &["src/lib.rs"], &["src/lib.rs"]);
    assert_eq!(set.classify("src/lib.rs"), Selection::Excluded);
    assert_eq!(set.classify("src/main.rs"), Selection::Content);
}

#[test]
fn tree_pattern_selects_for_the_tree_alone() {
    let set = set(&["src/**/*.rs"], &[], &["README.md", "src/main.rs"]);
    assert_eq!(set.classify("README.md"), Selection::TreeOnly);
    assert_eq!(set.classify("src/main.rs"), Selection::Content);
    assert_eq!(set.classify("LICENSE"), Selection::Unselected);
}

#[test]
fn matching_is_case_sensitive_and_whole_path() {
    let set = set(&["*.md"], &[], &[]);
    assert_eq!(set.classify("README.md"), Selection::Content);
    assert_eq!(set.classify("README.MD"), Selection::Unselected);
    assert_eq!(set.classify("README.md.bak"), Selection::Unselected);
}

#[test]
fn question_mark_matches_one_character() {
    let set = set(&["a?c.txt"], &[], &[]);
    assert_eq!(set.classify("abc.txt"), Selection::Content);
    assert_eq!(set.classify("ac.txt"), Selection::Unselected);
}

#[test]
fn empty_lists_select_nothing() {
    let set = set(&[], &[], &[]);
    assert_eq!(set.classify("anything"), Selection::Unselected);
    assert_eq!(set.classify(""), Selection::Unselected);
}

#[test]
fn malformed_pattern_is_reported() {
    match PatternSet::new(&config(&["src/**/*.rs", "abc[def"], &[], &[])) {
        Ok(_) => panic!("a malformed pattern was accepted"),
        Err(error) => {
            assert_eq!(error.pattern, "abc[def");
            assert_eq!(error.message(), "invalid glob pattern: abc[def");
        }
    }
}

#[test]
fn first_malformed_pattern_wins() {
    match PatternSet::new(&config(&["ok"], &["a/**b"], &["abc[def"])) {
        Ok(_) => panic!("a malformed pattern was accepted"),
        Err(error) => assert_eq!(error.pattern, "a/**b"),
    }
    match PatternSet::new(&config(&["abc[def"], &["a/**b"], &[])) {
        Ok(_) => panic!("a malformed pattern was accepted"),
        Err(error) => assert_eq!(error.pattern, "abc[def"),
    }
    match PatternSet::new(&config(&[], &[], &["fine", "a/**b"])) {
        Ok(_) => panic!("a malformed pattern was accepted"),
        Err(error) => assert_eq!(error.pattern, "a/**b"),
    }
}

#[test]
fn valid_patterns_compile() {
    assert!(PatternSet::new(&config(&["**/*.rs", "[a-z]*"], &["target/**"], &["*"])).is_ok());
}

#[test]
fn star_stays_within_one_segment() {
    let set = set(&["*.md", "src/*.rs"], &[], &[]);
    assert_eq!(set.classify("README.md"), Selection::Content);
    assert_eq!(set.classify("docs/guide.md"), Selection::Unselected);
    assert_eq!(set.classify("src/main.rs"), Selection::Content);
    assert_eq!(set.classify("src/app/config.rs"), Selection::Unselected);
}

#[test]
fn double_star_crosses_directories() {
    let set = set(&["**/*.md"], &["target/**"], &[]);
    assert_eq!(set.classify("README.md"), Selection::Content);
    assert_eq!(set.classify("docs/guide.md"), Selection::Content);
    assert_eq!(set.classify("docs/a/b/guide.md"), Selection::Content);
    assert_eq!(set.classify("target/doc/index.md"), Selection::Excluded);
}

#[test]
fn hidden_files_match_like_any_other() {
    let set = set(&["*"], &[], &[]);
    assert_eq!(set.classify(".gitignore"), Selection::Content);
}
