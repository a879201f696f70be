//! The order of entries: by path, text against text, code point by code point.
use crate::scanner::{views, Entry, EntryView};
use vstd::multiset::Multiset;
use vstd::prelude::*;
use vstd::seq_lib::*;

verus! {

/// `a` comes before `b` or equals it, comparing code point by code point;
/// a text comes before each of its extensions.
pub open spec fn text_le(a: Seq<char>, b: Seq<char>) -> bool
    decreases a.len(),
{
    if a.len() == 0 {
        true
    } else if b.len() == 0 {
        false
    } else if (a[0] as u32) < (b[0] as u32) {
        true
    } else if (b[0] as u32) < (a[0] as u32) {
        false
    } else {
        text_le(a.drop_first(), b.drop_first())
    }
}

/// Compares two texts with `<=` of `str`, which std documents as the
/// lexicographic order of the bytes, and so of the code points. Trusted:
/// that this order is `text_le`.
#[verifier::external_body]
fn text_at_most(a: &str, b: &str) -> (at_most: bool)
    ensures
        at_most == text_le(a@, b@),
{
    a <= b
}

/// Of two texts one comes before the other or equals it.
pub proof fn lemma_text_le_total(a: Seq<char>, b: Seq<char>)
    ensures
        text_le(a, b) || text_le(b, a),
    decreases a.len(),
{
    if a.len() > 0 && b.len() > 0 && (a[0] as u32) == (b[0] as u32) {
        lemma_text_le_total(a.drop_first(), b.drop_first());
    }
}

/// The order of texts is transitive.
pub proof fn lemma_text_le_transitive(a: Seq<char>, b: Seq<char>, c: Seq<char>)
    requires
        text_le(a, b),
        text_le(b, c),
    ensures
        text_le(a, c),
    decreases a.len(),
{
    if a.len() > 0 && b.len() > 0 && c.len() > 0 && (a[0] as u32) == (b[0] as u32) && (b[0] as u32)
        == (c[0] as u32) {
        lemma_text_le_transitive(a.drop_first(), b.drop_first(), c.drop_first());
    }
}

/// Two characters with one code are one character.
proof fn lemma_code_decides(a: char, b: char)
    requires
        (a as u32) == (b as u32),
    ensures
        a == b,
{
}

/// Two texts that come before each other are one text.
pub proof fn lemma_text_le_antisymmetric(a: Seq<char>, b: Seq<char>)
    requires
        text_le(a, b),
        text_le(b, a),
    ensures
        a == b,
    decreases a.len(),
{
    if a.len() > 0 && b.len() > 0 {
        lemma_code_decides(a[0], b[0]);
        lemma_text_le_antisymmetric(a.drop_first(), b.drop_first());
        assert(a =~= seq![a[0]] + a.drop_first());
        assert(b =~= seq![b[0]] + b.drop_first());
    } else {
        assert(a =~= b);
    }
}

/// The entries stand in the order of their paths.
pub open spec fn sorted_by_path(entries: Seq<EntryView>) -> bool {
    forall|i: int, j: int|
        0 <= i < j < entries.len() ==> text_le(
            (#[trigger] entries[i]).path,
            (#[trigger] entries[j]).path,
        )
}

/// Where a new entry goes in a list: behind the last entry whose path comes
/// before the new one's or equals it.
pub open spec fn insert_point(entries: Seq<EntryView>, entry: EntryView) -> int
    decreases entries.len(),
{
    if entries.len() == 0 {
        0
    } else if text_le(entries.last().path, entry.path) {
        entries.len() as int
    } else {
        insert_point(entries.drop_last(), entry)
    }
}

/// The list with the new entry put in at its place.
pub open spec fn insert_sorted(entries: Seq<EntryView>, entry: EntryView) -> Seq<EntryView> {
    entries.insert(insert_point(entries, entry), entry)
}

/// The entries put in one by one, each at its place: entries with one path
/// keep the order in which they came.
pub open spec fn sort_entries(entries: Seq<EntryView>) -> Seq<EntryView>
    decreases entries.len(),
{
    if entries.len() == 0 {
        Seq::empty()
    } else {
        insert_sorted(sort_entries(entries.drop_last()), entries.last())
    }
}

/// The insert point lies within the list, every entry from it on comes
/// strictly behind the new one, and the entry before it does not.
pub proof fn lemma_insert_point(entries: Seq<EntryView>, entry: EntryView)
    ensures
        0 <= insert_point(entries, entry) <= entries.len(),
        forall|k: int|
            insert_point(entries, entry) <= k < entries.len() ==> !text_le(
                (#[trigger] entries[k]).path,
                entry.path,
            ),
        insert_point(entries, entry) > 0 ==> text_le(
            entries[insert_point(entries, entry) - 1].path,
            entry.path,
        ),
    decreases entries.len(),
{
    if entries.len() > 0 && !text_le(entries.last().path, entry.path) {
        let init = entries.drop_last();
        lemma_insert_point(init, entry);
        assert forall|k: int| insert_point(entries, entry) <= k < entries.len() implies !text_le(
            (#[trigger] entries[k]).path,
            entry.path,
        ) by {
            if k < init.len() {
                assert(entries[k] == init[k]);
            }
        }
    }
}

/// Putting an entry into a sorted list leaves the list sorted.
pub proof fn lemma_insert_keeps_sorted(entries: Seq<EntryView>, entry: EntryView)
    requires
        sorted_by_path(entries),
    ensures
        sorted_by_path(insert_sorted(entries, entry)),
{
    lemma_insert_point(entries, entry);
    let at = insert_point(entries, entry);
    let out = insert_sorted(entries, entry);
    assert forall|i: int, j: int| 0 <= i < j < out.len() implies text_le(
        (#[trigger] out[i]).path,
        (#[trigger] out[j]).path,
    ) by {
        if j < at {
            assert(out[i] == entries[i] && out[j] == entries[j]);
        } else if j == at {
            assert(out[i] == entries[i]);
            if i < at - 1 {
                assert(text_le(entries[i].path, entries[at - 1].path));
                lemma_text_le_transitive(entries[i].path, entries[at - 1].path, entry.path);
            }
        } else if i < at {
            assert(out[i] == entries[i] && out[j] == entries[j - 1]);
        } else if i == at {
            assert(out[j] == entries[j - 1]);
            lemma_text_le_total(entries[j - 1].path, entry.path);
        } else {
            assert(out[i] == entries[i - 1] && out[j] == entries[j - 1]);
        }
    }
}

/// Sorting gives a list in the order of the paths, with the same entries,
/// each as often as before.
pub proof fn lemma_sort_entries(entries: Seq<EntryView>)
    ensures
        sorted_by_path(sort_entries(entries)),
        sort_entries(entries).to_multiset() == entries.to_multiset(),
        sort_entries(entries).len() == entries.len(),
    decreases entries.len(),
{
    if entries.len() > 0 {
        let init = entries.drop_last();
        lemma_sort_entries(init);
        lemma_insert_point(sort_entries(init), entries.last());
        lemma_insert_keeps_sorted(sort_entries(init), entries.last());
        to_multiset_insert(
            sort_entries(init),
            insert_point(sort_entries(init), entries.last()),
            entries.last(),
        );
        to_multiset_build(init, entries.last());
        assert(init.push(entries.last()) =~= entries);
    } else {
        assert(entries =~= Seq::empty());
    }
}

/// A list that is sorted already is left as it is.
pub proof fn lemma_sort_keeps_sorted(entries: Seq<EntryView>)
    requires
        sorted_by_path(entries),
    ensures
        sort_entries(entries) == entries,
    decreases entries.len(),
{
    if entries.len() > 0 {
        let init = entries.drop_last();
        assert forall|i: int, j: int| 0 <= i < j < init.len() implies text_le(
            (#[trigger] init[i]).path,
            (#[trigger] init[j]).path,
        ) by {
            assert(init[i] == entries[i] && init[j] == entries[j]);
        }
        lemma_sort_keeps_sorted(init);
        if init.len() > 0 {
            assert(init.last() == entries[init.len() - 1]);
            assert(text_le(entries[init.len() - 1].path, entries[entries.len() - 1].path));
        }
        assert(insert_point(init, entries.last()) == init.len());
        assert(init.insert(init.len() as int, entries.last()) =~= entries);
    } else {
        assert(entries =~= Seq::empty());
    }
}

/// No entry stands twice among the entries, and no two share a path.
pub open spec fn paths_unique(found: Multiset<EntryView>) -> bool {
    &&& forall|x: EntryView| found.count(x) <= 1
    &&& forall|x: EntryView, y: EntryView|
        found.contains(x) && found.contains(y) && x.path == y.path ==> x == y
}

/// Two sorted lists of the same entries, no two of which share a path, are
/// one list.
pub proof fn lemma_sorted_is_unique(a: Seq<EntryView>, b: Seq<EntryView>)
    requires
        sorted_by_path(a),
        sorted_by_path(b),
        a.to_multiset() == b.to_multiset(),
        paths_unique(a.to_multiset()),
    ensures
        a == b,
    decreases a.len(),
{
    broadcast use vstd::multiset::group_multiset_axioms;

    to_multiset_len(a);
    to_multiset_len(b);
    if a.len() == 0 {
        assert(a =~= b);
    } else {
        let x = a.last();
        let y = b.last();
        to_multiset_contains(a, x);
        to_multiset_contains(b, x);
        to_multiset_contains(a, y);
        to_multiset_contains(b, y);
        assert(a.contains(x));
        assert(b.contains(y));
        let j = choose|j: int| 0 <= j < b.len() && b[j] == x;
        let i = choose|i: int| 0 <= i < a.len() && a[i] == y;
        if x != y {
            assert(j != b.len() - 1);
            assert(i != a.len() - 1);
            assert(text_le(b[j].path, b[b.len() - 1].path));
            assert(text_le(a[i].path, a[a.len() - 1].path));
            lemma_text_le_antisymmetric(x.path, y.path);
            assert(a.to_multiset().contains(x));
            assert(a.to_multiset().contains(y));
        }
        assert(x == y);
        let shorter_a = a.drop_last();
        let shorter_b = b.drop_last();
        assert(a.remove(a.len() - 1) =~= shorter_a);
        assert(b.remove(b.len() - 1) =~= shorter_b);
        to_multiset_remove(a, a.len() - 1);
        to_multiset_remove(b, b.len() - 1);
        assert(shorter_a.to_multiset() == shorter_b.to_multiset());
        assert(paths_unique(shorter_a.to_multiset())) by {
            let whole = a.to_multiset();
            let rest = shorter_a.to_multiset();
            assert(rest == whole.remove(x));
            assert forall|z: EntryView| rest.count(z) <= 1 by {
                assert(whole.count(z) <= 1);
            }
            assert forall|z: EntryView, w: EntryView|
                rest.contains(z) && rest.contains(w) && z.path == w.path implies z == w by {
                assert(whole.contains(z));
                assert(whole.contains(w));
            }
        }
        assert forall|i: int, j: int| 0 <= i < j < shorter_a.len() implies text_le(
            (#[trigger] shorter_a[i]).path,
            (#[trigger] shorter_a[j]).path,
        ) by {
            assert(shorter_a[i] == a[i] && shorter_a[j] == a[j]);
        }
        assert forall|i: int, j: int| 0 <= i < j < shorter_b.len() implies text_le(
            (#[trigger] shorter_b[i]).path,
            (#[trigger] shorter_b[j]).path,
        ) by {
            assert(shorter_b[i] == b[i] && shorter_b[j] == b[j]);
        }
        lemma_sorted_is_unique(shorter_a, shorter_b);
        assert(a =~= shorter_a.push(x));
        assert(b =~= shorter_b.push(y));
    }
}

/// The sorted list does not depend on the order in which the entries were
/// found: where no two entries share a path, the same entries found in any
/// order sort to one list.
pub proof fn lemma_sort_ignores_arrival_order(a: Seq<EntryView>, b: Seq<EntryView>)
    requires
        a.to_multiset() == b.to_multiset(),
        paths_unique(a.to_multiset()),
    ensures
        sort_entries(a) == sort_entries(b),
{
    lemma_sort_entries(a);
    lemma_sort_entries(b);
    lemma_sorted_is_unique(sort_entries(a), sort_entries(b));
}

/// Sorting a second time changes nothing.
pub proof fn lemma_sort_idempotent(entries: Seq<EntryView>)
    ensures
        sort_entries(sort_entries(entries)) == sort_entries(entries),
{
    lemma_sort_entries(entries);
    lemma_sort_keeps_sorted(sort_entries(entries));
}

/// Puts `entry` into the sorted list at its place.
fn place(sorted: &mut Vec<Entry>, entry: Entry)
    ensures
        views(final(sorted)@) == insert_sorted(views(old(sorted)@), entry@),
{
    let ghost before = views(sorted@);
    let mut at: usize = sorted.len();
    assert(before.take(at as int) =~= before);
    while at > 0 && !text_at_most(sorted[at - 1].path.as_str(), entry.path.as_str())
        invariant
            at <= sorted.len(),
            sorted@ == old(sorted)@,
            before == views(sorted@),
            insert_point(before, entry@) == insert_point(before.take(at as int), entry@),
        decreases at,
    {
        proof {
            assert(before.take(at as int).drop_last() =~= before.take(at as int - 1));
            assert(before.take(at as int).last() == sorted@[at as int - 1]@);
        }
        at -= 1;
    }
    proof {
        if at > 0 {
            assert(before.take(at as int).last() == sorted@[at as int - 1]@);
        }
        assert(insert_point(before, entry@) == at);
    }
    sorted.insert(at, entry);
    assert(views(sorted@) =~= before.insert(at as int, entry@));
}

/// Sorts entries by path. Entries with one path keep their order.
pub fn sort_by_path(entries: &Vec<Entry>) -> (sorted: Vec<Entry>)
    ensures
        views(sorted@) == sort_entries(views(entries@)),
        sorted_by_path(views(sorted@)),
        views(sorted@).to_multiset() == views(entries@).to_multiset(),
        sorted.len() == entries.len(),
{
    let mut sorted: Vec<Entry> = Vec::new();
    let ghost all = views(entries@);
    let mut i: usize = 0;
    assert(all.take(0) =~= Seq::<EntryView>::empty());
    while i < entries.len()
        invariant
            i <= entries.len(),
            all == views(entries@),
            views(sorted@) == sort_entries(all.take(i as int)),
        decreases entries.len() - i,
    {
        proof {
            assert(all.take(i as int + 1).drop_last() =~= all.take(i as int));
            assert(all.take(i as int + 1).last() == entries@[i as int]@);
        }
        let entry = Entry {
            path: entries[i].path.clone(),
            is_dir: entries[i].is_dir,
            include_content: entries[i].include_content,
        };
        place(&mut sorted, entry);
        i += 1;
    }
    proof {
        assert(all.take(all.len() as int) =~= all);
        lemma_sort_entries(all);
    }
    sorted
}

} // verus!

