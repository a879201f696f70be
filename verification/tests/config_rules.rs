use code_context::config::{
    build_config, merge_vecs, resolve_config, Cli, NamedPreset, PresetConfig, RuntimeConfig,
};

fn strings(items: &[&str]) -> Vec<String> {
    items.iter().map(|s| s.to_string()).collect()
}

fn table() -> Vec<NamedPreset> {
    vec![
        NamedPreset {
            name: "rust".to_string(),
            config: PresetConfig {
                include_patterns: Some(strings(&["src/**/*.rs", "Cargo.toml"])),
                exclude: Some(strings(&["target/**"])),
                include_in_tree: None,
            },
        },
        NamedPreset {
            name: "docs".to_string(),
            config: PresetConfig {
                include_patterns: Some(strings(&["**/*.md"])),
                exclude: None,
                include_in_tree: Some(strings(&["LICENSE"])),
            },
        },
        NamedPreset {
            name: "rust".to_string(),
            config: PresetConfig {
                include_patterns: Some(strings(&["shadowed"])),
                exclude: None,
                include_in_tree: None,
            },
        },
    ]
}

#[test]
fn merge_keeps_preset_items_first() {
    let merged = merge_vecs(Some(strings(&["a", "b"])), Some(strings(&["c", "d"])));
    assert_eq!(merged, strings(&["a", "b", "c", "d"]));
}

#[test]
fn merge_drops_later_duplicates() {
    let merged = merge_vecs(Some(strings(&["a", "b", "a"])), Some(strings(&["b", "c", "c", "a"])));
    assert_eq!(merged, strings(&["a", "b", "c"]));
}

#[test]
fn merge_of_nothing_is_empty() {
    assert_eq!(merge_vecs(None, None), Vec::<String>::new());
    assert_eq!(merge_vecs(Some(vec![]), None), Vec::<String>::new());
}

#[test]
fn merge_with_one_side_missing() {
    assert_eq!(merge_vecs(None, Some(strings(&["x", "x", "y"]))), strings(&["x", "y"]));
    assert_eq!(merge_vecs(Some(strings(&["x", "y", "x"])), None), strings(&["x", "y"]));
}

#[test]
fn merge_twice_changes_nothing() {
    let once = merge_vecs(Some(strings(&["b", "a", "b"])), Some(strings(&["a", "c"])));
    let twice = merge_vecs(Some(once.clone()), None);
    assert_eq!(once, twice);
}

#[test]
fn build_config_without_preset_takes_the_command_line() {
    let config = build_config(
        &table(),
        None,
        Some(strings(&["*.rs", "*.rs", "*.toml"])),
        None,
        Some(strings(&["README.md"])),
        true,
    );
    assert_eq!(config.include_patterns, strings(&["*.rs", "*.toml"]));
    assert_eq!(config.exclude, Vec::<String>::new());
    assert_eq!(config.include_in_tree, strings(&["README.md"]));
    assert!(config.tree_only_output);
}

#[test]
fn build_config_merges_the_named_preset() {
    let config = build_config(
        &table(),
        Some("rust"),
        Some(strings(&["Cargo.toml", "build.rs"])),
        Some(strings(&["*.lock"])),
        None,
        false,
    );
    assert_eq!(config.include_patterns, strings(&["src/**/*.rs", "Cargo.toml", "build.rs"]));
    assert_eq!(config.exclude, strings(&["target/**", "*.lock"]));
    assert_eq!(config.include_in_tree, Vec::<String>::new());
    assert!(!config.tree_only_output);
}

#[test]
fn build_config_with_unknown_preset_counts_as_none() {
    let config = build_config(&table(), Some("python"), Some(strings(&["*.py"])), None, None, false);
    assert_eq!(config.include_patterns, strings(&["*.py"]));
    assert_eq!(config.exclude, Vec::<String>::new());
    assert_eq!(config.include_in_tree, Vec::<String>::new());
}

#[test]
fn build_config_takes_the_first_preset_of_a_name() {
    let config = build_config(&table(), Some("rust"), None, None, None, false);
    assert_eq!(config.include_patterns, strings(&["src/**/*.rs", "Cargo.toml"]));
}

#[test]
fn resolve_config_reads_the_arguments() {
    let cli = Cli {
        preset: Some("docs".to_string()),
        include_patterns: Some(strings(&["**/*.txt", "**/*.md"])),
        exclude: Some(strings(&["drafts/**"])),
        include_in_tree: Some(strings(&["LICENSE", "NOTICE"])),
        tree: true,
    };
    let config = resolve_config(cli, &table());
    assert_eq!(config.include_patterns, strings(&["**/*.md", "**/*.txt"]));
    assert_eq!(config.exclude, strings(&["drafts/**"]));
    assert_eq!(config.include_in_tree, strings(&["LICENSE", "NOTICE"]));
    assert!(config.tree_only_output);
}

#[test]
fn resolve_config_without_preset() {
    let cli = Cli {
        preset: None,
        include_patterns: None,
        exclude: None,
        include_in_tree: None,
        tree: false,
    };
    let config = resolve_config(cli, &table());
    assert!(config.include_patterns.is_empty());
    assert!(config.exclude.is_empty());
    assert!(config.include_in_tree.is_empty());
    assert!(!config.tree_only_output);
}

#[test]
fn a_run_needs_a_selecting_pattern() {
    let mut config = RuntimeConfig {
        include_patterns: vec![],
        exclude: strings(&["target/**"]),
        include_in_tree: vec![],
        tree_only_output: false,
    };
    assert!(!config.has_selection());
    config.include_in_tree = strings(&["README.md"]);
    assert!(config.has_selection());
    config.include_in_tree = vec![];
    config.include_patterns = strings(&["*.rs"]);
    assert!(config.has_selection());
}
