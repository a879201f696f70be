//! Bundles the files of a project into one text: a drawing of the directory
//! tree followed by the contents of the selected files.
//!
//! The library holds the rules: how pattern lists merge, which paths the
//! patterns select, how a walk of the directories proceeds, and how the
//! selection is rendered. Reading directories and files is the caller's part.
pub mod config;
pub mod formatter;
pub mod patterns;
pub mod scanner;
pub mod sorting;

pub use crate::config::build_config;
pub use crate::config::RuntimeConfig;
pub use crate::formatter::OutputGenerator;
pub use crate::scanner::Scanner;

use crate::formatter::{content_text, full_output, tree_only_output, tree_text};
use crate::scanner::{views, Entry, EntryView};
use crate::sorting::{lemma_sort_ignores_arrival_order, paths_unique, sort_entries};
use vstd::prelude::*;

verus! {

/// The artifact of a selection: nothing where nothing was selected; the
/// tagged tree alone where the configuration asks for the tree only; else
/// the tagged tree followed by the contents.
pub open spec fn artifact(
    tree_only: bool,
    entries: Seq<EntryView>,
    bodies: Seq<Option<String>>,
) -> Seq<char> {
    if entries.len() == 0 {
        Seq::empty()
    } else if tree_only {
        tree_only_output(tree_text(entries))
    } else {
        full_output(tree_text(entries), content_text(entries, bodies))
    }
}

/// Two walks that find the same entries, no two of which share a path, in
/// whatever order, and read the same texts, give the same artifact, byte
/// for byte.
pub proof fn lemma_artifact_repeats(
    tree_only: bool,
    first: Seq<EntryView>,
    second: Seq<EntryView>,
    bodies: Seq<Option<String>>,
)
    requires
        first.to_multiset() == second.to_multiset(),
        paths_unique(first.to_multiset()),
    ensures
        artifact(tree_only, sort_entries(first), bodies) == artifact(
            tree_only,
            sort_entries(second),
            bodies,
        ),
{
    lemma_sort_ignores_arrival_order(first, second);
}

/// Renders the artifact of the entries that a walk found. `bodies[i]` is
/// the text of the file of `entries[i]`, or `None` where it could not be
/// read. An empty selection gives the empty string.
pub fn generate(config: RuntimeConfig, entries: &Vec<Entry>, bodies: &Vec<Option<String>>) -> (output:
    String)
    ensures
        output@ == artifact(config.tree_only_output, views(entries@), bodies@),
{
    if entries.len() == 0 {
        return String::new();
    }
    let tree = OutputGenerator::generate_tree(entries);
    if config.tree_only_output {
        OutputGenerator::format_tree_only(tree.as_str())
    } else {
        let content = OutputGenerator::generate_content(entries, bodies);
        OutputGenerator::format_full_output(tree.as_str(), content.as_str())
    }
}

} // verus!
