//! The walk of the directories as a sequence of decisions: which directory
//! to read next, and what to keep of a directory's listing.
use crate::config::{texts, RuntimeConfig};
use crate::patterns::{
    all_patterns, all_valid, any_match, first_invalid_at, ConfigError, PatternSet, Selection,
};
use crate::sorting::{sort_by_path, sort_entries, sorted_by_path};
use vstd::prelude::*;
use vstd::seq_lib::*;

verus! {

/// One selected file: its path relative to the root, with `/` between the
/// segments, and what it was selected for.
#[derive(Clone, Debug)]
pub struct Entry {
    pub path: String,
    pub is_dir: bool,
    pub include_content: bool,
}

/// An entry as a plain value.
pub ghost struct EntryView {
    pub path: Seq<char>,
    pub is_dir: bool,
    pub include_content: bool,
}

impl View for Entry {
    type V = EntryView;

    open spec fn view(&self) -> EntryView {
        EntryView { path: self.path@, is_dir: self.is_dir, include_content: self.include_content }
    }
}

/// The entries of a list as plain values.
pub open spec fn views(entries: Seq<Entry>) -> Seq<EntryView> {
    Seq::new(entries.len(), |i: int| entries[i]@)
}

/// What an item of a directory listing is. A symbolic link is its own kind,
/// whatever it points to.
#[derive(Clone, Copy, Debug, PartialEq, Eq, Structural)]
pub enum ItemKind {
    File,
    Directory,
    Symlink,
}

/// One item of a directory listing: its name within the directory and its kind.
#[derive(Clone, Debug)]
pub struct DirItem {
    pub name: String,
    pub kind: ItemKind,
}

/// The path of the item `name` of the directory `dir`; the root is the empty path.
pub open spec fn child_path(dir: Seq<char>, name: Seq<char>) -> Seq<char> {
    if dir.len() == 0 {
        name
    } else {
        dir + seq!['/'] + name
    }
}

/// The entry that an item of the listing of `dir` gives, if any. Files and
/// symbolic links are leaves: they give an entry where the patterns select
/// them. A directory gives none.
pub open spec fn item_entry(set: PatternSet, dir: Seq<char>, item: DirItem) -> Option<EntryView> {
    let path = child_path(dir, item.name@);
    if item.kind == ItemKind::Directory {
        None
    } else {
        match set.decides(path) {
            Selection::Content => Some(EntryView { path, is_dir: false, include_content: true }),
            Selection::TreeOnly => Some(EntryView { path, is_dir: false, include_content: false }),
            _ => None,
        }
    }
}

/// Whether the walk goes down into an item of the listing of `dir`: only
/// into a directory, and only if no exclusion pattern matches it.
pub open spec fn item_descends(set: PatternSet, dir: Seq<char>, item: DirItem) -> bool {
    item.kind == ItemKind::Directory && set.decides(child_path(dir, item.name@))
        != Selection::Excluded
}

/// The entries that the listing of `dir` gives, in the listing's order.
pub open spec fn listing_entries(set: PatternSet, dir: Seq<char>, items: Seq<DirItem>) -> Seq<
    EntryView,
>
    decreases items.len(),
{
    if items.len() == 0 {
        Seq::empty()
    } else {
        let before = listing_entries(set, dir, items.drop_last());
        match item_entry(set, dir, items.last()) {
            Some(entry) => before.push(entry),
            None => before,
        }
    }
}

/// The directories below `dir` that the walk goes down into, in the listing's order.
pub open spec fn listing_descents(set: PatternSet, dir: Seq<char>, items: Seq<DirItem>) -> Seq<
    Seq<char>,
>
    decreases items.len(),
{
    if items.len() == 0 {
        Seq::empty()
    } else {
        let before = listing_descents(set, dir, items.drop_last());
        if item_descends(set, dir, items.last()) {
            before.push(child_path(dir, items.last().name@))
        } else {
            before
        }
    }
}

/// What holds of an entry that a listing gives under the patterns `set`: it
/// is a leaf, no exclusion pattern matches its path, a selecting pattern
/// does, and its contents are wanted exactly where a content pattern matches.
pub open spec fn entry_is_selected(set: PatternSet, entry: EntryView) -> bool {
    &&& !any_match(set.excludes(), entry.path)
    &&& !entry.is_dir
    &&& entry.include_content == any_match(set.includes(), entry.path)
    &&& any_match(set.includes(), entry.path) || any_match(set.tree_includes(), entry.path)
}

/// `path` is the path of an item that the listing of `dir` gives as a directory.
pub open spec fn is_listed_directory(dir: Seq<char>, items: Seq<DirItem>, path: Seq<char>) -> bool {
    exists|k: int|
        0 <= k < items.len() && (#[trigger] items[k]).kind == ItemKind::Directory && child_path(
            dir,
            items[k].name@,
        ) == path
}

/// Whatever a listing holds, no exclusion pattern matches the path of an
/// entry that it gives or of a directory that the walk goes down into, and
/// each entry is a leaf that a selecting pattern matches.
pub proof fn lemma_listing_respects_exclusion(set: PatternSet, dir: Seq<char>, items: Seq<DirItem>)
    ensures
        forall|i: int|
            0 <= i < listing_entries(set, dir, items).len() ==> entry_is_selected(
                set,
                #[trigger] listing_entries(set, dir, items)[i],
            ),
        forall|i: int|
            0 <= i < listing_descents(set, dir, items).len() ==> !any_match(
                set.excludes(),
                #[trigger] listing_descents(set, dir, items)[i],
            ),
    decreases items.len(),
{
    if items.len() > 0 {
        let init = items.drop_last();
        lemma_listing_respects_exclusion(set, dir, init);
        let path = child_path(dir, items.last().name@);
        assert forall|i: int| 0 <= i < listing_entries(set, dir, items).len() implies entry_is_selected(
            set,
            #[trigger] listing_entries(set, dir, items)[i],
        ) by {
            if i < listing_entries(set, dir, init).len() {
                assert(listing_entries(set, dir, items)[i] == listing_entries(set, dir, init)[i]);
            } else {
                assert(listing_entries(set, dir, items)[i] == item_entry(
                    set,
                    dir,
                    items.last(),
                ).unwrap());
            }
        }
        assert forall|i: int| 0 <= i < listing_descents(set, dir, items).len() implies !any_match(
            set.excludes(),
            #[trigger] listing_descents(set, dir, items)[i],
        ) by {
            if i < listing_descents(set, dir, init).len() {
                assert(listing_descents(set, dir, items)[i] == listing_descents(set, dir, init)[i]);
            } else {
                assert(listing_descents(set, dir, items)[i] == path);
            }
        }
    }
}

/// The walk goes down only into items that the listing gives as directories:
/// never through a symbolic link, so a link to a directory above itself
/// cannot keep the walk going.
pub proof fn lemma_descents_are_directories(set: PatternSet, dir: Seq<char>, items: Seq<DirItem>)
    ensures
        forall|i: int|
            0 <= i < listing_descents(set, dir, items).len() ==> is_listed_directory(
                dir,
                items,
                #[trigger] listing_descents(set, dir, items)[i],
            ),
        listing_descents(set, dir, items).len() <= items.len(),
    decreases items.len(),
{
    if items.len() > 0 {
        let init = items.drop_last();
        lemma_descents_are_directories(set, dir, init);
        assert forall|i: int| 0 <= i < listing_descents(set, dir, items).len() implies is_listed_directory(
            dir,
            items,
            #[trigger] listing_descents(set, dir, items)[i],
        ) by {
            let path = listing_descents(set, dir, items)[i];
            if i < listing_descents(set, dir, init).len() {
                assert(path == listing_descents(set, dir, init)[i]);
                assert(is_listed_directory(dir, init, path));
                let k = choose|k: int|
                    0 <= k < init.len() && (#[trigger] init[k]).kind == ItemKind::Directory
                        && child_path(dir, init[k].name@) == path;
                assert(items[k] == init[k]);
            } else {
                assert(items[items.len() - 1] == items.last());
            }
        }
    }
}

/// Joins a directory's path and an item's name.
pub fn join_path(dir: &str, name: &str) -> (path: String)
    ensures
        path@ == child_path(dir@, name@),
{
    if dir.is_empty() {
        String::from_str(name)
    } else {
        proof {
            reveal_strlit("/");
        }
        let mut path = String::from_str(dir);
        path.append("/");
        path.append(name);
        assert("/"@ =~= seq!['/']);
        path
    }
}

/// The state of a walk: the patterns, the directories still to be read, and
/// the entries found so far.
pub struct Scanner {
    patterns: PatternSet,
    pending: Vec<String>,
    entries: Vec<Entry>,
}

impl Scanner {
    /// The patterns that the walk applies.
    pub closed spec fn patterns(self) -> PatternSet {
        self.patterns
    }

    /// The paths of the directories still to be read; the last is read next.
    pub closed spec fn pending(self) -> Seq<Seq<char>> {
        texts(self.pending@)
    }

    /// The entries found so far, in the order in which they were found.
    pub closed spec fn found(self) -> Seq<EntryView> {
        views(self.entries@)
    }

    /// Every entry found so far is a leaf that the patterns select and that
    /// no exclusion pattern matches.
    pub open spec fn only_selected(self) -> bool {
        forall|i: int|
            0 <= i < self.found().len() ==> entry_is_selected(
                self.patterns(),
                #[trigger] self.found()[i],
            )
    }

    /// Starts a walk with the patterns of `config`: the root, whose path is
    /// empty, is the one directory to be read, and nothing is found yet.
    /// Fails, before anything is read, where a pattern is no valid glob.
    pub fn new(config: &RuntimeConfig) -> (made: Result<Scanner, ConfigError>)
        ensures
            match made {
                Ok(scanner) => {
                    &&& all_valid(all_patterns(*config))
                    &&& scanner.patterns().includes() == texts(
                        config.include_patterns@,
                    )
                    &&& scanner.patterns().excludes() == texts(config.exclude@)
                    &&& scanner.patterns().tree_includes() == texts(
                        config.include_in_tree@,
                    )
                    &&& scanner.pending() == seq![Seq::<char>::empty()]
                    &&& scanner.found() == Seq::<EntryView>::empty()
                    &&& scanner.only_selected()
                },
                Err(error) => exists|at: int|
                    first_invalid_at(all_patterns(*config), at)
                        && all_patterns(*config)[at] == error.pattern@,
            },
    {
        match PatternSet::new(config) {
            Ok(patterns) => {
                let mut pending: Vec<String> = Vec::new();
                pending.push(String::new());
                let entries: Vec<Entry> = Vec::new();
                assert(texts(pending@) =~= seq![Seq::<char>::empty()]);
                assert(views(entries@) =~= Seq::<EntryView>::empty());
                Ok(Scanner { patterns, pending, entries })
            },
            Err(error) => Err(error),
        }
    }

    /// Hands out the directory to read next, if one is left, and takes it
    /// off the list. When none is left the walk is over.
    pub fn next_directory(&mut self) -> (next: Option<String>)
        ensures
            final(self).patterns() == old(self).patterns(),
            final(self).found() == old(self).found(),
            match next {
                Some(dir) => {
                    &&& old(self).pending().len() > 0
                    &&& dir@ == old(self).pending().last()
                    &&& final(self).pending() == old(self).pending().drop_last()
                },
                None => old(self).pending().len() == 0 && final(self).pending() == old(
                    self,
                ).pending(),
            },
    {
        let next = self.pending.pop();
        proof {
            if old(self).pending@.len() > 0 {
                assert(texts(self.pending@) =~= texts(
                    old(self).pending@,
                ).drop_last());
            }
        }
        next
    }

    /// Takes in the listing of the directory `dir`: each file or symbolic
    /// link that the patterns select becomes an entry, and each directory
    /// that they do not exclude is put down to be read later.
    pub fn visit(&mut self, dir: &str, items: &Vec<DirItem>)
        ensures
            final(self).patterns() == old(self).patterns(),
            final(self).found() == old(self).found() + listing_entries(
                old(self).patterns(),
                dir@,
                items@,
            ),
            final(self).pending() == old(self).pending() + listing_descents(
                old(self).patterns(),
                dir@,
                items@,
            ),
            old(self).only_selected() ==> final(self).only_selected(),
    {
        proof {
            lemma_listing_respects_exclusion(self.patterns, dir@, items@);
        }
        let mut i: usize = 0;
        assert(items@.take(0) =~= Seq::<DirItem>::empty());
        while i < items.len()
            invariant
                i <= items.len(),
                self.patterns == old(self).patterns,
                views(self.entries@) == views(old(self).entries@) + listing_entries(
                    self.patterns,
                    dir@,
                    items@.take(i as int),
                ),
                texts(self.pending@) == texts(old(self).pending@)
                    + listing_descents(self.patterns, dir@, items@.take(i as int)),
            decreases items.len() - i,
        {
            let ghost entries_before = views(self.entries@);
            let ghost pending_before = texts(self.pending@);
            proof {
                assert(items@.take(i as int + 1).drop_last() =~= items@.take(i as int));
                assert(items@.take(i as int + 1).last() == items@[i as int]);
            }
            let item = &items[i];
            let path = join_path(dir, item.name.as_str());
            let decision = self.patterns.classify(path.as_str());
            match item.kind {
                ItemKind::Directory => {
                    match decision {
                        Selection::Excluded => {},
                        _ => {
                            self.pending.push(path);
                            assert(texts(self.pending@) =~= pending_before.push(
                                child_path(dir@, item.name@),
                            ));
                        },
                    }
                },
                _ => {
                    match decision {
                        Selection::Content => {
                            self.entries.push(
                                Entry { path, is_dir: false, include_content: true },
                            );
                            assert(views(self.entries@) =~= entries_before.push(
                                item_entry(self.patterns, dir@, *item).unwrap(),
                            ));
                        },
                        Selection::TreeOnly => {
                            self.entries.push(
                                Entry { path, is_dir: false, include_content: false },
                            );
                            assert(views(self.entries@) =~= entries_before.push(
                                item_entry(self.patterns, dir@, *item).unwrap(),
                            ));
                        },
                        _ => {},
                    }
                },
            }
            i += 1;
        }
        assert(items@.take(items.len() as int) =~= items@);
        proof {
            if old(self).only_selected() {
                let added = listing_entries(self.patterns, dir@, items@);
                assert forall|i: int| 0 <= i < self.found().len() implies entry_is_selected(
                    self.patterns(),
                    #[trigger] self.found()[i],
                ) by {
                    if i < old(self).found().len() {
                        assert(self.found()[i] == old(self).found()[i]);
                    } else {
                        assert(self.found()[i] == added[i - old(self).found().len()]);
                    }
                }
            }
        }
    }

    /// Ends the walk and hands out what was found, sorted by path: the
    /// entries found, each as often as it was found.
    pub fn finish(self) -> (entries: Vec<Entry>)
        ensures
            views(entries@) == sort_entries(self.found()),
            sorted_by_path(views(entries@)),
            views(entries@).to_multiset() == self.found().to_multiset(),
            entries.len() == self.found().len(),
            self.only_selected() ==> forall|i: int|
                0 <= i < entries.len() ==> entry_is_selected(
                    self.patterns(),
                    #[trigger] views(entries@)[i],
                ),
    {
        let entries = sort_by_path(&self.entries);
        proof {
            if self.only_selected() {
                assert forall|i: int| 0 <= i < entries.len() implies entry_is_selected(
                    self.patterns(),
                    #[trigger] views(entries@)[i],
                ) by {
                    let entry = views(entries@)[i];
                    to_multiset_contains(views(entries@), entry);
                    to_multiset_contains(self.found(), entry);
                    assert(views(entries@).contains(entry));
                    let k = choose|k: int| 0 <= k < self.found().len() && self.found()[k] == entry;
                    assert(entry_is_selected(self.patterns(), self.found()[k]));
                }
            }
        }
        entries
    }
}

} // verus!
