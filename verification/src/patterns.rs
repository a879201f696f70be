//! Glob patterns and the precedence among the three pattern lists.
use crate::config::{texts, RuntimeConfig};
use vstd::prelude::*;

verus! {

/// Whether `pattern` is a glob pattern that the glob matcher accepts.
pub uninterp spec fn glob_is_valid(pattern: Seq<char>) -> bool;

/// Whether the glob pattern `pattern` matches the whole of `path` under the
/// three options of the glob matcher: whether letters match by case, whether
/// a separator needs a literal `/` in the pattern, and whether a dot at the
/// start of a segment needs a literal dot.
pub uninterp spec fn glob_matches(
    pattern: Seq<char>,
    path: Seq<char>,
    case_sensitive: bool,
    literal_separator: bool,
    literal_leading_dot: bool,
) -> bool;

/// Calls `glob::Pattern::new` and says whether it accepted the pattern.
/// Trusted: that the answer depends on the pattern's text alone, which is
/// what `glob_is_valid` names. The glob crate goes by the host's path
/// separator, so this holds among hosts that share it.
#[verifier::external_body]
fn pattern_compiles(pattern: &str) -> (ok: bool)
    ensures
        ok == glob_is_valid(pattern@),
{
    glob::Pattern::new(pattern).is_ok()
}

/// Compiles the pattern with `glob::Pattern::new` and calls
/// `glob::Pattern::matches_with` on the path, with the three flags as the
/// fields of its `MatchOptions`. Trusted: that the answer depends on the
/// two texts and the flags alone, which is what `glob_matches` names.
#[verifier::external_body]
fn pattern_matches(
    pattern: &str,
    path: &str,
    case_sensitive: bool,
    literal_separator: bool,
    literal_leading_dot: bool,
) -> (hit: bool)
    requires
        glob_is_valid(pattern@),
    ensures
        hit == glob_matches(
            pattern@,
            path@,
            case_sensitive,
            literal_separator,
            literal_leading_dot,
        ),
{
    let options = glob::MatchOptions {
        case_sensitive,
        require_literal_separator: literal_separator,
        require_literal_leading_dot: literal_leading_dot,
    };
    match glob::Pattern::new(pattern) {
        Ok(compiled) => compiled.matches_with(path, options),
        Err(_) => false,
    }
}

/// How this library matches a path: by case, with `*` and `?` held within
/// one segment so that only `**` crosses a `/`, and with no special
/// treatment of names that start with a dot.
pub open spec fn path_matches(pattern: Seq<char>, path: Seq<char>) -> bool {
    glob_matches(pattern, path, true, true, false)
}

/// A pattern list held a text that is no glob pattern.
#[derive(Clone, Debug)]
pub struct ConfigError {
    /// The offending pattern.
    pub pattern: String,
}

impl ConfigError {
    /// The message shown to the user.
    pub fn message(&self) -> (text: String)
        ensures
            text@ == "invalid glob pattern: "@ + self.pattern@,
    {
        let mut text = String::from_str("invalid glob pattern: ");
        text.append(self.pattern.as_str());
        text
    }
}

/// What the patterns decide of one path.
#[derive(Clone, Copy, Debug, PartialEq, Eq, Structural)]
pub enum Selection {
    /// An exclusion pattern matches: the path is left out altogether.
    Excluded,
    /// Selected for the tree and for the contents.
    Content,
    /// Selected for the tree alone.
    TreeOnly,
    /// No pattern matches.
    Unselected,
}

/// Every text of the list is a valid glob pattern.
pub open spec fn all_valid(patterns: Seq<Seq<char>>) -> bool {
    forall|i: int| 0 <= i < patterns.len() ==> glob_is_valid(#[trigger] patterns[i])
}

/// Some pattern of the list matches the path.
pub open spec fn any_match(patterns: Seq<Seq<char>>, path: Seq<char>) -> bool {
    exists|i: int| 0 <= i < patterns.len() && path_matches(#[trigger] patterns[i], path)
}

/// `patterns[at]` is the first text of the list that is no valid pattern.
pub open spec fn first_invalid_at(patterns: Seq<Seq<char>>, at: int) -> bool {
    &&& 0 <= at < patterns.len()
    &&& !glob_is_valid(patterns[at])
    &&& forall|k: int| 0 <= k < at ==> glob_is_valid(#[trigger] patterns[k])
}

/// The precedence among the lists: exclusion first, then selection for
/// content, then selection for the tree alone.
pub open spec fn selection(
    includes: Seq<Seq<char>>,
    excludes: Seq<Seq<char>>,
    tree_includes: Seq<Seq<char>>,
    path: Seq<char>,
) -> Selection {
    if any_match(excludes, path) {
        Selection::Excluded
    } else if any_match(includes, path) {
        Selection::Content
    } else if any_match(tree_includes, path) {
        Selection::TreeOnly
    } else {
        Selection::Unselected
    }
}

/// The patterns of a configuration in the order in which they are checked.
pub open spec fn all_patterns(config: RuntimeConfig) -> Seq<Seq<char>> {
    texts(config.include_patterns@) + texts(config.exclude@) + texts(config.include_in_tree@)
}

/// Exclusion dominates: a path that an exclusion pattern matches is excluded,
/// whatever the other two lists hold.
pub proof fn lemma_exclusion_dominates(
    includes: Seq<Seq<char>>,
    excludes: Seq<Seq<char>>,
    tree_includes: Seq<Seq<char>>,
    path: Seq<char>,
)
    requires
        any_match(excludes, path),
    ensures
        selection(includes, excludes, tree_includes, path) == Selection::Excluded,
{
}

/// A path is selected for content only where a content pattern matches it
/// and no exclusion pattern does; it is in the tree only where it is not
/// excluded and one of the two selecting lists matches it.
pub proof fn lemma_selection_sound(
    includes: Seq<Seq<char>>,
    excludes: Seq<Seq<char>>,
    tree_includes: Seq<Seq<char>>,
    path: Seq<char>,
)
    ensures
        selection(includes, excludes, tree_includes, path) == Selection::Content <==> any_match(
            includes,
            path,
        ) && !any_match(excludes, path),
        selection(includes, excludes, tree_includes, path) == Selection::TreeOnly <==> any_match(
            tree_includes,
            path,
        ) && !any_match(includes, path) && !any_match(excludes, path),
{
}

/// The three compiled pattern lists of a configuration.
pub struct PatternSet {
    content: Vec<String>,
    excluded: Vec<String>,
    tree: Vec<String>,
}

/// The index of the first text of the list that is no valid pattern.
fn first_invalid(patterns: &Vec<String>) -> (at: Option<usize>)
    ensures
        match at {
            Some(i) => first_invalid_at(texts(patterns@), i as int),
            None => all_valid(texts(patterns@)),
        },
{
    let mut i: usize = 0;
    while i < patterns.len()
        invariant
            i <= patterns.len(),
            forall|k: int| 0 <= k < i ==> glob_is_valid(#[trigger] texts(patterns@)[k]),
        decreases patterns.len() - i,
    {
        if !pattern_compiles(patterns[i].as_str()) {
            return Some(i);
        }
        i += 1;
    }
    None
}

/// A copy of the list, text for text.
fn copy_list(list: &Vec<String>) -> (copy: Vec<String>)
    ensures
        texts(copy@) == texts(list@),
{
    let mut copy: Vec<String> = Vec::new();
    let mut i: usize = 0;
    while i < list.len()
        invariant
            i <= list.len(),
            copy.len() == i,
            forall|k: int| 0 <= k < i ==> copy@[k]@ == list@[k]@,
        decreases list.len() - i,
    {
        copy.push(list[i].clone());
        i += 1;
    }
    assert(texts(copy@) =~= texts(list@));
    copy
}

/// Whether some pattern of the list matches the path.
fn matches_any(patterns: &Vec<String>, path: &str) -> (hit: bool)
    requires
        all_valid(texts(patterns@)),
    ensures
        hit == any_match(texts(patterns@), path@),
{
    let mut i: usize = 0;
    while i < patterns.len()
        invariant
            i <= patterns.len(),
            all_valid(texts(patterns@)),
            forall|k: int| 0 <= k < i ==> !path_matches(#[trigger] texts(patterns@)[k], path@),
        decreases patterns.len() - i,
    {
        assert(glob_is_valid(texts(patterns@)[i as int]));
        if pattern_matches(patterns[i].as_str(), path, true, true, false) {
            assert(path_matches(texts(patterns@)[i as int], path@));
            return true;
        }
        i += 1;
    }
    false
}

impl PatternSet {
    #[verifier::type_invariant]
    spec fn well_formed(self) -> bool {
        &&& all_valid(texts(self.content@))
        &&& all_valid(texts(self.excluded@))
        &&& all_valid(texts(self.tree@))
    }

    /// The patterns that select a path for tree and content.
    pub closed spec fn includes(self) -> Seq<Seq<char>> {
        texts(self.content@)
    }

    /// The patterns that exclude a path.
    pub closed spec fn excludes(self) -> Seq<Seq<char>> {
        texts(self.excluded@)
    }

    /// The patterns that select a path for the tree alone.
    pub closed spec fn tree_includes(self) -> Seq<Seq<char>> {
        texts(self.tree@)
    }

    /// What the set decides of `path`.
    pub open spec fn decides(self, path: Seq<char>) -> Selection {
        selection(self.includes(), self.excludes(), self.tree_includes(), path)
    }

    /// Compiles the three lists of a configuration. Fails on the first text,
    /// in the order content, exclusion, tree, that is no valid glob pattern,
    /// and reports that text.
    pub fn new(config: &RuntimeConfig) -> (made: Result<PatternSet, ConfigError>)
        ensures
            match made {
                Ok(set) => {
                    &&& all_valid(all_patterns(*config))
                    &&& set.includes() == texts(config.include_patterns@)
                    &&& set.excludes() == texts(config.exclude@)
                    &&& set.tree_includes() == texts(config.include_in_tree@)
                },
                Err(error) => exists|at: int|
                    first_invalid_at(all_patterns(*config), at) && all_patterns(*config)[at]
                        == error.pattern@,
            },
    {
        let ghost first = texts(config.include_patterns@);
        let ghost second = texts(config.exclude@);
        let ghost third = texts(config.include_in_tree@);
        if let Some(i) = first_invalid(&config.include_patterns) {
            assert(first_invalid_at(all_patterns(*config), i as int));
            return Err(ConfigError { pattern: config.include_patterns[i].clone() });
        }
        if let Some(i) = first_invalid(&config.exclude) {
            assert(first_invalid_at(all_patterns(*config), first.len() + i)) by {
                assert(all_patterns(*config)[first.len() + i] == second[i as int]);
                assert forall|k: int| 0 <= k < first.len() + i implies glob_is_valid(
                    #[trigger] all_patterns(*config)[k],
                ) by {
                    if k < first.len() {
                        assert(all_patterns(*config)[k] == first[k]);
                    } else {
                        assert(all_patterns(*config)[k] == second[k - first.len()]);
                    }
                }
            }
            return Err(ConfigError { pattern: config.exclude[i].clone() });
        }
        if let Some(i) = first_invalid(&config.include_in_tree) {
            assert(first_invalid_at(all_patterns(*config), first.len() + second.len() + i)) by {
                assert(all_patterns(*config)[first.len() + second.len() + i] == third[i as int]);
                assert forall|k: int| 0 <= k < first.len() + second.len() + i implies glob_is_valid(
                    #[trigger] all_patterns(*config)[k],
                ) by {
                    if k < first.len() {
                        assert(all_patterns(*config)[k] == first[k]);
                    } else if k < first.len() + second.len() {
                        assert(all_patterns(*config)[k] == second[k - first.len()]);
                    } else {
                        assert(all_patterns(*config)[k] == third[k - first.len() - second.len()]);
                    }
                }
            }
            return Err(ConfigError { pattern: config.include_in_tree[i].clone() });
        }
        assert(all_valid(all_patterns(*config))) by {
            assert forall|k: int| 0 <= k < all_patterns(*config).len() implies glob_is_valid(
                #[trigger] all_patterns(*config)[k],
            ) by {
                if k < first.len() {
                    assert(all_patterns(*config)[k] == first[k]);
                } else if k < first.len() + second.len() {
                    assert(all_patterns(*config)[k] == second[k - first.len()]);
                } else {
                    assert(all_patterns(*config)[k] == third[k - first.len() - second.len()]);
                }
            }
        }
        Ok(
            PatternSet {
                content: copy_list(&config.include_patterns),
                excluded: copy_list(&config.exclude),
                tree: copy_list(&config.include_in_tree),
            },
        )
    }

    /// Decides of one path, given relative to the root with `/` between its
    /// segments, by the precedence of the three lists.
    pub fn classify(&self, path: &str) -> (decision: Selection)
        ensures
            decision == self.decides(path@),
    {
        proof {
            use_type_invariant(self);
        }
        if matches_any(&self.excluded, path) {
            Selection::Excluded
        } else if matches_any(&self.content, path) {
            Selection::Content
        } else if matches_any(&self.tree, path) {
            Selection::TreeOnly
        } else {
            Selection::Unselected
        }
    }
}

} // verus!
