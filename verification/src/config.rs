//! The resolved configuration and the ordered union of pattern lists.
use vstd::prelude::*;

verus! {

/// What a run is configured with: three lists of glob patterns and a switch.
#[derive(Clone, Debug)]
pub struct RuntimeConfig {
    pub include_patterns: Vec<String>,
    pub exclude: Vec<String>,
    pub include_in_tree: Vec<String>,
    pub tree_only_output: bool,
}

/// The pattern lists of one preset; a list that the preset leaves out is `None`.
#[derive(Clone, Debug)]
pub struct PresetConfig {
    pub include_patterns: Option<Vec<String>>,
    pub exclude: Option<Vec<String>>,
    pub include_in_tree: Option<Vec<String>>,
}

/// A preset under its name, as the presets table holds it.
#[derive(Clone, Debug)]
pub struct NamedPreset {
    pub name: String,
    pub config: PresetConfig,
}

/// The command line's arguments as plain values.
#[derive(Clone, Debug)]
pub struct Cli {
    pub preset: Option<String>,
    pub include_patterns: Option<Vec<String>>,
    pub exclude: Option<Vec<String>>,
    pub include_in_tree: Option<Vec<String>>,
    pub tree: bool,
}

impl RuntimeConfig {
    /// Whether the configuration can select anything: a run needs a
    /// pattern in one of the two selecting lists.
    pub fn has_selection(&self) -> (some: bool)
        ensures
            some == (self.include_patterns@.len() > 0 || self.include_in_tree@.len() > 0),
    {
        self.include_patterns.len() > 0 || self.include_in_tree.len() > 0
    }
}

/// The texts of a list of strings.
pub open spec fn texts(v: Seq<String>) -> Seq<Seq<char>> {
    Seq::new(v.len(), |i: int| v[i]@)
}

/// The texts of an optional list; a missing list counts as empty.
pub open spec fn texts_or_empty(v: Option<Vec<String>>) -> Seq<Seq<char>> {
    match v {
        Some(list) => texts(list@),
        None => Seq::empty(),
    }
}

/// The items of `s` in order, each kept at its first occurrence only.
pub open spec fn dedup(s: Seq<Seq<char>>) -> Seq<Seq<char>>
    decreases s.len(),
{
    if s.len() == 0 {
        Seq::empty()
    } else {
        let head = dedup(s.drop_last());
        if head.contains(s.last()) {
            head
        } else {
            head.push(s.last())
        }
    }
}

/// The ordered union of a preset's list and the command line's list.
pub open spec fn ordered_union(first: Seq<Seq<char>>, second: Seq<Seq<char>>) -> Seq<Seq<char>> {
    dedup(first + second)
}

/// No text stands twice in `s`.
pub open spec fn no_duplicates(s: Seq<Seq<char>>) -> bool {
    forall|i: int, j: int| 0 <= i < j < s.len() ==> s[i] != s[j]
}

/// A deduplicated list holds no text twice and holds exactly the texts of the
/// list it was made from.
pub proof fn lemma_dedup_is_set_like(s: Seq<Seq<char>>)
    ensures
        no_duplicates(dedup(s)),
        dedup(s).len() <= s.len(),
        forall|t: Seq<char>| dedup(s).contains(t) <==> s.contains(t),
    decreases s.len(),
{
    if s.len() > 0 {
        let init = s.drop_last();
        lemma_dedup_is_set_like(init);
        let head = dedup(init);
        assert forall|t: Seq<char>| dedup(s).contains(t) <==> s.contains(t) by {
            if s.contains(t) {
                let k = choose|k: int| 0 <= k < s.len() && s[k] == t;
                if k < s.len() - 1 {
                    assert(init[k] == t);
                    assert(init.contains(t));
                    assert(head.contains(t));
                    let m = choose|m: int| 0 <= m < head.len() && head[m] == t;
                    assert(dedup(s)[m] == t);
                } else {
                    if !head.contains(t) {
                        assert(dedup(s)[head.len() as int] == t);
                    }
                }
            }
            if dedup(s).contains(t) {
                let m = choose|m: int| 0 <= m < dedup(s).len() && dedup(s)[m] == t;
                if m < head.len() {
                    assert(head[m] == t);
                    assert(head.contains(t));
                    assert(init.contains(t));
                    let k = choose|k: int| 0 <= k < init.len() && init[k] == t;
                    assert(s[k] == t);
                } else {
                    assert(s[s.len() - 1] == t);
                }
            }
        }
    }
}

/// Deduplicating a second time changes nothing.
pub proof fn lemma_dedup_idempotent(s: Seq<Seq<char>>)
    ensures
        dedup(dedup(s)) == dedup(s),
    decreases s.len(),
{
    if s.len() > 0 {
        let init = s.drop_last();
        lemma_dedup_idempotent(init);
        lemma_dedup_is_set_like(init);
        let head = dedup(init);
        if !head.contains(s.last()) {
            assert(head.push(s.last()).drop_last() == head);
        }
    }
}

/// Whether `list` holds a string with the text of `item`.
fn holds(list: &Vec<String>, item: &String) -> (found: bool)
    ensures
        found == texts(list@).contains(item@),
{
    let mut i: usize = 0;
    while i < list.len()
        invariant
            i <= list.len(),
            forall|k: int| 0 <= k < i ==> texts(list@)[k] != item@,
        decreases list.len() - i,
    {
        if list[i] == *item {
            assert(texts(list@)[i as int] == item@);
            return true;
        }
        i += 1;
    }
    false
}

/// Appends to `out` the strings of `list` that `out` does not hold yet.
fn extend_unique(out: &mut Vec<String>, list: &Vec<String>)
    ensures
        texts(final(out)@) == dedup_onto(texts(old(out)@), texts(list@)),
{
    let mut i: usize = 0;
    while i < list.len()
        invariant
            i <= list.len(),
            texts(out@) == dedup_onto(texts(old(out)@), texts(list@).take(i as int)),
        decreases list.len() - i,
    {
        let ghost before = texts(out@);
        let ghost prefix = texts(list@).take(i as int + 1);
        proof {
            assert(prefix.drop_last() == texts(list@).take(i as int));
            assert(prefix.last() == list@[i as int]@);
        }
        if !holds(out, &list[i]) {
            let item = list[i].clone();
            out.push(item);
            assert(texts(out@) == before.push(list@[i as int]@));
        }
        i += 1;
    }
    assert(texts(list@).take(list.len() as int) == texts(list@));
}

/// `base` followed by the items of `more` that did not occur before.
pub open spec fn dedup_onto(base: Seq<Seq<char>>, more: Seq<Seq<char>>) -> Seq<Seq<char>>
    decreases more.len(),
{
    if more.len() == 0 {
        base
    } else {
        let head = dedup_onto(base, more.drop_last());
        if head.contains(more.last()) {
            head
        } else {
            head.push(more.last())
        }
    }
}

/// Extending the empty list is deduplicating, and extending twice is
/// deduplicating the two lists joined.
pub proof fn lemma_dedup_onto(first: Seq<Seq<char>>, second: Seq<Seq<char>>)
    ensures
        dedup_onto(Seq::empty(), first) == dedup(first),
        dedup_onto(dedup(first), second) == dedup(first + second),
    decreases first.len() + second.len(),
{
    if first.len() > 0 {
        lemma_dedup_onto(first.drop_last(), Seq::empty());
    }
    if second.len() == 0 {
        assert(first + second == first);
    } else {
        lemma_dedup_onto(first, second.drop_last());
        assert((first + second).drop_last() == first + second.drop_last());
    }
}

/// The ordered union of two optional lists, read in place.
fn merge_lists(preset_vec: &Option<Vec<String>>, cli_vec: &Option<Vec<String>>) -> (merged: Vec<String>)
    ensures
        texts(merged@) == ordered_union(texts_or_empty(*preset_vec), texts_or_empty(*cli_vec)),
        no_duplicates(texts(merged@)),
{
    let mut merged: Vec<String> = Vec::new();
    assert(texts(merged@) == Seq::<Seq<char>>::empty());
    if let Some(items) = preset_vec {
        extend_unique(&mut merged, items);
    }
    proof {
        lemma_dedup_onto(texts_or_empty(*preset_vec), Seq::empty());
    }
    if let Some(items) = cli_vec {
        extend_unique(&mut merged, items);
    }
    proof {
        lemma_dedup_onto(texts_or_empty(*preset_vec), texts_or_empty(*cli_vec));
        lemma_dedup_is_set_like(texts_or_empty(*preset_vec) + texts_or_empty(*cli_vec));
        if cli_vec.is_none() {
            assert(texts_or_empty(*preset_vec) + texts_or_empty(*cli_vec) == texts_or_empty(
                *preset_vec,
            ));
        }
    }
    merged
}

/// Joins the preset's list and the command line's list: the preset's items
/// first, each item once, at the place of its first occurrence.
pub fn merge_vecs(preset_vec: Option<Vec<String>>, cli_vec: Option<Vec<String>>) -> (merged: Vec<
    String,
>)
    ensures
        texts(merged@) == ordered_union(texts_or_empty(preset_vec), texts_or_empty(cli_vec)),
        no_duplicates(texts(merged@)),
{
    merge_lists(&preset_vec, &cli_vec)
}

/// The lists of the first preset in the table that goes by `name`.
pub open spec fn lookup(presets: Seq<NamedPreset>, name: Seq<char>) -> Option<PresetConfig>
    decreases presets.len(),
{
    if presets.len() == 0 {
        None
    } else if presets.first().name@ == name {
        Some(presets.first().config)
    } else {
        lookup(presets.drop_first(), name)
    }
}

/// The lists that a run starts from: those of the named preset where the
/// table holds it, and none otherwise.
pub open spec fn chosen_preset(presets: Seq<NamedPreset>, preset_name: Option<&str>) -> Option<
    PresetConfig,
> {
    match preset_name {
        Some(name) => lookup(presets, name@),
        None => None,
    }
}

/// One list of the chosen preset, picked by `field`, as texts.
pub open spec fn preset_texts(
    chosen: Option<PresetConfig>,
    field: spec_fn(PresetConfig) -> Option<Vec<String>>,
) -> Seq<Seq<char>> {
    match chosen {
        Some(preset) => texts_or_empty(field(preset)),
        None => Seq::empty(),
    }
}

/// The configuration that a preset and the command line's lists resolve to.
pub open spec fn resolves_to(
    config: RuntimeConfig,
    chosen: Option<PresetConfig>,
    include_patterns: Option<Vec<String>>,
    exclude: Option<Vec<String>>,
    include_in_tree: Option<Vec<String>>,
    tree_only: bool,
) -> bool {
    &&& texts(config.include_patterns@) == ordered_union(
        preset_texts(chosen, |p: PresetConfig| p.include_patterns),
        texts_or_empty(include_patterns),
    )
    &&& texts(config.exclude@) == ordered_union(
        preset_texts(chosen, |p: PresetConfig| p.exclude),
        texts_or_empty(exclude),
    )
    &&& texts(config.include_in_tree@) == ordered_union(
        preset_texts(chosen, |p: PresetConfig| p.include_in_tree),
        texts_or_empty(include_in_tree),
    )
    &&& config.tree_only_output == tree_only
}

/// Finds the first preset of the table that goes by `name`.
fn find_preset<'a>(presets: &'a Vec<NamedPreset>, name: &str) -> (found: Option<&'a PresetConfig>)
    ensures
        match found {
            Some(preset) => lookup(presets@, name@) == Some(*preset),
            None => lookup(presets@, name@).is_none(),
        },
{
    let wanted = String::from_str(name);
    let mut i: usize = 0;
    assert(presets@.skip(0) == presets@);
    while i < presets.len()
        invariant
            i <= presets.len(),
            wanted@ == name@,
            lookup(presets@, name@) == lookup(presets@.skip(i as int), name@),
        decreases presets.len() - i,
    {
        proof {
            assert(presets@.skip(i as int).drop_first() == presets@.skip(i as int + 1));
            assert(presets@.skip(i as int).first() == presets@[i as int]);
        }
        if presets[i].name == wanted {
            return Some(&presets[i].config);
        }
        i += 1;
    }
    None
}

/// Resolves a configuration from the presets table, the name of the preset
/// to start from, and the lists given on the command line. Each list of the
/// result is the ordered union of the preset's list and the command line's.
/// A name that the table lacks counts as no preset.
pub fn build_config(
    presets: &Vec<NamedPreset>,
    preset_name: Option<&str>,
    include_patterns: Option<Vec<String>>,
    exclude: Option<Vec<String>>,
    include_in_tree: Option<Vec<String>>,
    tree_only: bool,
) -> (config: RuntimeConfig)
    ensures
        resolves_to(
            config,
            chosen_preset(presets@, preset_name),
            include_patterns,
            exclude,
            include_in_tree,
            tree_only,
        ),
        no_duplicates(texts(config.include_patterns@)),
        no_duplicates(texts(config.exclude@)),
        no_duplicates(texts(config.include_in_tree@)),
{
    let chosen = match preset_name {
        Some(name) => find_preset(presets, name),
        None => None,
    };
    match chosen {
        Some(preset) => RuntimeConfig {
            include_patterns: merge_lists(&preset.include_patterns, &include_patterns),
            exclude: merge_lists(&preset.exclude, &exclude),
            include_in_tree: merge_lists(&preset.include_in_tree, &include_in_tree),
            tree_only_output: tree_only,
        },
        None => {
            let nothing: Option<Vec<String>> = None;
            RuntimeConfig {
                include_patterns: merge_lists(&nothing, &include_patterns),
                exclude: merge_lists(&nothing, &exclude),
                include_in_tree: merge_lists(&nothing, &include_in_tree),
                tree_only_output: tree_only,
            }
        },
    }
}

/// Resolves the configuration of a run from the command line's arguments and
/// the presets table.
pub fn resolve_config(cli: Cli, presets: &Vec<NamedPreset>) -> (config: RuntimeConfig)
    ensures
        resolves_to(
            config,
            match cli.preset {
                Some(name) => lookup(presets@, name@),
                None => None,
            },
            cli.include_patterns,
            cli.exclude,
            cli.include_in_tree,
            cli.tree,
        ),
{
    let preset_name: Option<&str> = match &cli.preset {
        Some(name) => Some(name.as_str()),
        None => None,
    };
    build_config(
        presets,
        preset_name,
        cli.include_patterns,
        cli.exclude,
        cli.include_in_tree,
        cli.tree,
    )
}

} // verus!
